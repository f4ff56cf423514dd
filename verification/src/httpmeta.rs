//! Extracting the suggested file name from a `Content-Disposition` header
//! value: the text between `filename="` and the last closing quote on the
//! same line. The match is leftmost for the opening and greedy for the
//! closing quote, and never crosses a line break.

use vstd::prelude::*;

verus! {

/// The opening the header match looks for (10 characters).
pub open spec fn filename_lit() -> Seq<char> {
    "filename=\""@
}

/// The opening occurs at position `i`.
pub open spec fn starts_at(s: Seq<char>, i: int) -> bool {
    &&& 0 <= i
    &&& i + 10 <= s.len()
    &&& s.subrange(i, i + 10) == filename_lit()
}

/// Position `j` closes a name that starts at `b`: a quote, with no line
/// break anywhere between.
pub open spec fn close_ok(s: Seq<char>, b: int, j: int) -> bool {
    &&& b <= j < s.len()
    &&& s[j] == '"'
    &&& forall|k: int| b <= k < j ==> s[k] != '\n'
}

/// A complete match starts at `i`: the opening is there and some position
/// closes it.
pub open spec fn match_at(s: Seq<char>, i: int) -> bool {
    starts_at(s, i) && exists|j: int| #[trigger] close_ok(s, i + 10, j)
}

/// `i` and `j` delimit the name the header yields: the leftmost complete
/// match, closed by the last possible quote.
pub open spec fn filename_match(s: Seq<char>, i: int, j: int) -> bool {
    &&& starts_at(s, i)
    &&& close_ok(s, i + 10, j)
    &&& forall|i2: int| 0 <= i2 < i ==> !match_at(s, i2)
    &&& forall|j2: int| j < j2 ==> !(#[trigger] close_ok(s, i + 10, j2))
}

/// The opening occurs at character position `i` of the header.
fn has_lit_at(s: &str, i: usize) -> (r: bool)
    requires
        i + 10 <= s@.len(),
        s@.len() <= usize::MAX,
    ensures
        r == (s@.subrange(i as int, i + 10) == filename_lit()),
{
    proof {
        reveal_strlit("filename=\"");
    }
    let r = s.get_char(i) == 'f' && s.get_char(i + 1) == 'i' && s.get_char(i + 2) == 'l'
        && s.get_char(i + 3) == 'e' && s.get_char(i + 4) == 'n' && s.get_char(i + 5) == 'a'
        && s.get_char(i + 6) == 'm' && s.get_char(i + 7) == 'e' && s.get_char(i + 8) == '='
        && s.get_char(i + 9) == '"';
    proof {
        let sub = s@.subrange(i as int, i + 10);
        if r {
            assert(sub =~= filename_lit()) by {
                assert forall|k: int| 0 <= k < 10 implies sub[k] == filename_lit()[k] by {
                    assert(sub[k] == s@[i + k]);
                }
            }
        } else {
            if sub == filename_lit() {
                assert(s@[i as int] == sub[0]);
                assert(s@[i + 1] == sub[1]);
                assert(s@[i + 2] == sub[2]);
                assert(s@[i + 3] == sub[3]);
                assert(s@[i + 4] == sub[4]);
                assert(s@[i + 5] == sub[5]);
                assert(s@[i + 6] == sub[6]);
                assert(s@[i + 7] == sub[7]);
                assert(s@[i + 8] == sub[8]);
                assert(s@[i + 9] == sub[9]);
            }
        }
    }
    r
}

/// The file name a `Content-Disposition` header value suggests, if any: the
/// characters between the leftmost `filename="` that is closed on its line
/// and the last quote on that line.
pub fn content_disposition_filename(header: &str) -> (r: Option<String>)
    ensures
        match r {
            Some(name) => exists|i: int, j: int|
                #![trigger filename_match(header@, i, j)]
                filename_match(header@, i, j) && name@ == header@.subrange(i + 10, j),
            None => forall|i: int| !match_at(header@, i),
        },
{
    let len = header.unicode_len();
    if len < 10 {
        proof {
            assert forall|i: int| !match_at(header@, i) by {}
        }
        return None;
    }
    let mut i: usize = 0;
    while i <= len - 10
        invariant
            10 <= len == header@.len(),
            i <= len,
            forall|i2: int| 0 <= i2 < i ==> !match_at(header@, i2),
        decreases len - i,
    {
        if has_lit_at(header, i) {
            // Scan the rest of the line for the last quote.
            let b = i + 10;
            let mut j = b;
            let mut last_q: Option<usize> = None;
            while j < len && header.get_char(j) != '\n'
                invariant
                    10 <= len == header@.len(),
                    b == i + 10 <= len,
                    b <= j <= len,
                    forall|k: int| b <= k < j ==> header@[k] != '\n',
                    match last_q {
                        Some(q) => b <= q < j && header@[q as int] == '"' && forall|k: int|
                            q < k < j ==> header@[k] != '"',
                        None => forall|k: int| b <= k < j ==> header@[k] != '"',
                    },
                decreases len - j,
            {
                if header.get_char(j) == '"' {
                    last_q = Some(j);
                }
                j = j + 1;
            }
            let ghost stop = j as int;
            proof {
                assert(stop == header@.len() || header@[stop] == '\n');
            }
            match last_q {
                Some(q) => {
                    proof {
                        assert(close_ok(header@, b as int, q as int));
                        assert(match_at(header@, i as int));
                        assert forall|j2: int| q < j2 implies !close_ok(header@, b as int, j2) by {
                            if j2 < stop {
                                assert(header@[j2] != '"');
                            } else if j2 == stop && stop < header@.len() {
                                assert(header@[j2] == '\n');
                            } else if j2 > stop && j2 < header@.len() {
                                assert(b <= stop < j2);
                                assert(header@[stop] == '\n');
                            }
                        }
                        assert(filename_match(header@, i as int, q as int));
                    }
                    let name = header.substring_char(b, q).to_owned();
                    proof {
                        assert(filename_match(header@, i as int, q as int));
                        assert(name@ == header@.subrange(i as int + 10, q as int));
                    }
                    return Some(name);
                },
                None => {
                    proof {
                        assert forall|j2: int| !close_ok(header@, b as int, j2) by {
                            if b <= j2 < stop {
                                assert(header@[j2] != '"');
                            } else if j2 == stop && stop < header@.len() {
                                assert(header@[j2] == '\n');
                            } else if j2 > stop && j2 < header@.len() {
                                assert(b <= stop < j2);
                                assert(header@[stop] == '\n');
                            }
                        }
                        assert(!match_at(header@, i as int));
                    }
                },
            }
        } else {
            proof {
                assert(!match_at(header@, i as int));
            }
        }
        i = i + 1;
    }
    proof {
        assert forall|i2: int| !match_at(header@, i2) by {
            if 0 <= i2 < i {
            } else {
                assert(i2 < 0 || i2 + 10 > header@.len());
            }
        }
    }
    None
}

} // verus!
