use vstd::prelude::*;

verus! {

/// The ten bytes that open a directive line: two slashes, the directive
/// word, and a colon. The path that the directive names is the remainder
/// of the line, taken verbatim.
pub open spec fn marker() -> Seq<u8> {
    seq![47u8, 47u8, 105u8, 110u8, 99u8, 108u8, 117u8, 100u8, 101u8, 58u8]
}

/// The directive marker as a byte vector, for callers that build or
/// display directive lines.
pub fn marker_bytes() -> (r: Vec<u8>)
    ensures
        r@ == marker(),
{
    let mut v: Vec<u8> = Vec::new();
    v.push(47u8);
    v.push(47u8);
    v.push(105u8);
    v.push(110u8);
    v.push(99u8);
    v.push(108u8);
    v.push(117u8);
    v.push(100u8);
    v.push(101u8);
    v.push(58u8);
    proof {
        assert(v@ =~= marker());
    }
    v
}

/// A line is a directive exactly when its first ten bytes are the marker.
pub open spec fn line_is_directive(line: Seq<u8>) -> bool {
    line.len() >= 10 && line.subrange(0, 10) == marker()
}

/// The path a directive line names: everything after the marker.
pub open spec fn directive_target(line: Seq<u8>) -> Seq<u8> {
    line.subrange(10, line.len() as int)
}

/// A line that ends in a carriage return had a two-byte line ending;
/// the carriage return is not part of the line's content.
pub open spec fn strip_cr(line: Seq<u8>) -> Seq<u8> {
    if line.len() > 0 && line.last() == 13u8 {
        line.drop_last()
    } else {
        line
    }
}

/// The paths contributed by one line: one path for a directive line,
/// none otherwise.
pub open spec fn line_paths(line: Seq<u8>) -> Seq<Seq<u8>> {
    if line_is_directive(line) {
        seq![directive_target(line)]
    } else {
        Seq::empty()
    }
}

/// Index of the first newline byte, or the length when there is none.
pub open spec fn first_nl(t: Seq<u8>) -> int
    decreases t.len(),
{
    if t.len() == 0 {
        0
    } else if t[0] == 10u8 {
        0
    } else {
        1 + first_nl(t.subrange(1, t.len() as int))
    }
}

/// The directive paths of a text, line by line, in textual order.
/// Lines are separated by newline bytes; a carriage return before a
/// newline belongs to the line ending, and the final line needs no
/// newline of its own.
pub open spec fn scan_spec(t: Seq<u8>) -> Seq<Seq<u8>>
    decreases t.len(),
{
    if t.len() == 0 {
        Seq::empty()
    } else {
        let i = first_nl(t);
        if 0 <= i < t.len() {
            line_paths(strip_cr(t.subrange(0, i))) + scan_spec(
                t.subrange(i + 1, t.len() as int),
            )
        } else {
            line_paths(t)
        }
    }
}

pub proof fn lemma_first_nl_unique(t: Seq<u8>, i: int)
    requires
        0 <= i <= t.len(),
        forall|j: int| 0 <= j < i ==> t[j] != 10u8,
        i < t.len() ==> t[i] == 10u8,
    ensures
        i < t.len() ==> first_nl(t) == i,
        i == t.len() ==> first_nl(t) >= t.len(),
    decreases t.len(),
{
    if t.len() == 0 {
    } else if t[0] == 10u8 {
        assert(i == 0);
    } else {
        let rest = t.subrange(1, t.len() as int);
        assert(i >= 1);
        assert forall|j: int| 0 <= j < i - 1 implies rest[j] != 10u8 by {
            assert(rest[j] == t[j + 1]);
        }
        lemma_first_nl_unique(rest, i - 1);
    }
}

/// Copy of the byte range `[a, b)` of `v`.
pub fn subrange_vec(v: &Vec<u8>, a: usize, b: usize) -> (r: Vec<u8>)
    requires
        a <= b <= v.len(),
    ensures
        r@ == v@.subrange(a as int, b as int),
{
    let mut r: Vec<u8> = Vec::new();
    let mut k: usize = a;
    while k < b
        invariant
            a <= k <= b <= v.len(),
            r@ == v@.subrange(a as int, k as int),
        decreases b - k,
    {
        r.push(v[k]);
        proof {
            assert(r@ =~= v@.subrange(a as int, k + 1 as int));
        }
        k = k + 1;
    }
    r
}

/// Extract, in textual order, the path of every directive line of `text`.
pub fn scan_directives(text: &Vec<u8>) -> (r: Vec<Vec<u8>>)
    ensures
        r.deep_view() == scan_spec(text@),
{
    let n = text.len();
    let mut found: Vec<Vec<u8>> = Vec::new();
    let mut pos: usize = 0;
    proof {
        assert(text@.subrange(0, n as int) =~= text@);
        assert(found.deep_view() =~= Seq::<Seq<u8>>::empty());
    }
    while pos < n
        invariant
            pos <= n == text.len(),
            scan_spec(text@) == found.deep_view() + scan_spec(text@.subrange(pos as int, n as int)),
        decreases n - pos,
    {
        // find the end of the current line
        let mut j: usize = pos;
        while j < n && text[j] != 10u8
            invariant
                pos <= j <= n == text.len(),
                forall|k: int| pos <= k < j ==> text@[k] != 10u8,
            decreases n - j,
        {
            j = j + 1;
        }
        // the line's content, without a carriage return that precedes a newline
        let line_end: usize = if j < n && j > pos && text[j - 1] == 13u8 {
            j - 1
        } else {
            j
        };
        let ghost suffix = text@.subrange(pos as int, n as int);
        let ghost line = text@.subrange(pos as int, line_end as int);
        proof {
            assert forall|k: int| 0 <= k < j - pos implies suffix[k] != 10u8 by {
                assert(suffix[k] == text@[pos + k]);
            }
            if j < n {
                assert(suffix[j - pos] == text@[j as int]);
            }
            lemma_first_nl_unique(suffix, j - pos);
            if j < n {
                assert(strip_cr(suffix.subrange(0, j - pos)) =~= line) by {
                    assert(suffix.subrange(0, j - pos) =~= text@.subrange(
                        pos as int,
                        j as int,
                    ));
                }
            } else {
                assert(first_nl(suffix) >= suffix.len());
                assert(line_end == j);
                assert(suffix =~= line);
            }
        }
        // does the line begin with the marker?
        let is_directive = line_end - pos >= 10 && text[pos] == 47u8 && text[pos + 1] == 47u8
            && text[pos + 2] == 105u8 && text[pos + 3] == 110u8 && text[pos + 4] == 99u8
            && text[pos + 5] == 108u8 && text[pos + 6] == 117u8 && text[pos + 7] == 100u8
            && text[pos + 8] == 101u8 && text[pos + 9] == 58u8;
        proof {
            if is_directive {
                assert(line.subrange(0, 10) =~= marker()) by {
                    assert forall|k: int| 0 <= k < 10 implies line.subrange(0, 10)[k]
                        == marker()[k] by {
                        assert(line[k] == text@[pos + k]);
                    }
                }
                assert(line_is_directive(line));
            } else {
                if line.len() >= 10 && line.subrange(0, 10) == marker() {
                    assert forall|k: int| 0 <= k < 10 implies text@[pos + k] == marker()[k] by {
                        assert(line.subrange(0, 10)[k] == line[k]);
                    }
                    assert(false);
                }
                assert(!line_is_directive(line));
            }
        }
        let ghost found_before = found.deep_view();
        let ghost found_snap = found@;
        if is_directive {
            let path = subrange_vec(text, pos + 10, line_end);
            proof {
                assert(path@ =~= directive_target(line));
            }
            found.push(path);
            proof {
                assert forall|i: int| 0 <= i < found@.len() implies found.deep_view()[i] == (
                found_before + line_paths(line))[i] by {
                    if i < found_snap.len() {
                        assert(found@[i] == found_snap[i]);
                    } else {
                        assert(found@[i]@ == directive_target(line));
                    }
                }
                assert(found.deep_view() =~= found_before + line_paths(line));
            }
        } else {
            proof {
                assert(found.deep_view() =~= found_before + line_paths(line));
            }
        }
        let next_pos: usize = if j < n {
            j + 1
        } else {
            n
        };
        proof {
            if j < n {
                assert(scan_spec(suffix) == line_paths(line) + scan_spec(
                    suffix.subrange(j - pos + 1, suffix.len() as int),
                ));
                assert(suffix.subrange(j - pos + 1, suffix.len() as int) =~= text@.subrange(
                    next_pos as int,
                    n as int,
                ));
            } else {
                assert(scan_spec(suffix) == line_paths(line));
                assert(text@.subrange(next_pos as int, n as int) =~= Seq::<u8>::empty());
                assert(scan_spec(text@.subrange(next_pos as int, n as int)) == Seq::<
                    Seq<u8>,
                >::empty());
            }
            assert(scan_spec(text@) =~= found.deep_view() + scan_spec(
                text@.subrange(next_pos as int, n as int),
            ));
        }
        pos = next_pos;
    }
    proof {
        assert(text@.subrange(pos as int, n as int) =~= Seq::<u8>::empty());
        assert(scan_spec(text@) =~= found.deep_view());
    }
    found
}

} // verus!
