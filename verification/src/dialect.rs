use vstd::prelude::*;

verus! {

/// The source dialect of a file, read off its filename extension.
/// `Wgsl` is the canonical, WGSL-like declarative dialect; `Glsl` the
/// GLSL-like C-style dialect; every other extension, or none, is `Unknown`.
#[derive(Clone, Copy, Debug, PartialEq, Eq, Structural)]
pub enum Dialect {
    Wgsl,
    Glsl,
    Unknown,
}

/// Index of the last occurrence of `b` in `t`, or `-1` when absent.
pub open spec fn last_index_of(t: Seq<u8>, b: u8) -> int
    decreases t.len(),
{
    if t.len() == 0 {
        -1
    } else if t[t.len() - 1] == b {
        t.len() - 1
    } else {
        last_index_of(t.drop_last(), b)
    }
}

pub proof fn lemma_last_index_of_unique(t: Seq<u8>, b: u8, i: int)
    requires
        -1 <= i < t.len(),
        i >= 0 ==> t[i] == b,
        forall|j: int| i < j < t.len() ==> t[j] != b,
    ensures
        last_index_of(t, b) == i,
    decreases t.len(),
{
    if t.len() == 0 {
    } else if t[t.len() - 1] == b {
        assert(i == t.len() - 1);
    } else {
        assert(i < t.len() - 1);
        assert forall|j: int| i < j < t.drop_last().len() implies t.drop_last()[j] != b by {
            assert(t.drop_last()[j] == t[j]);
        }
        lemma_last_index_of_unique(t.drop_last(), b, i);
    }
}

/// The final component of a path: everything after the last slash.
pub open spec fn file_name_spec(p: Seq<u8>) -> Seq<u8> {
    p.subrange(last_index_of(p, 47u8) + 1, p.len() as int)
}

/// The extension of a path: what follows the last dot of the final
/// component, provided that dot is neither absent nor the component's
/// first byte (a name that begins with its only dot has no extension).
pub open spec fn ext_spec(p: Seq<u8>) -> Option<Seq<u8>> {
    let f = file_name_spec(p);
    let d = last_index_of(f, 46u8);
    if d <= 0 {
        None
    } else {
        Some(f.subrange(d + 1, f.len() as int))
    }
}

/// The extension that names the canonical dialect: `wgsl`.
pub open spec fn wgsl_ext() -> Seq<u8> {
    seq![119u8, 103u8, 115u8, 108u8]
}

/// The extension that names the C-style dialect: `glsl`.
pub open spec fn glsl_ext() -> Seq<u8> {
    seq![103u8, 108u8, 115u8, 108u8]
}

/// The dialect a path's extension selects.
pub open spec fn dialect_spec(p: Seq<u8>) -> Dialect {
    if ext_spec(p) == Some(wgsl_ext()) {
        Dialect::Wgsl
    } else if ext_spec(p) == Some(glsl_ext()) {
        Dialect::Glsl
    } else {
        Dialect::Unknown
    }
}

/// Index one past the last occurrence of `b` in `v`, or `0` when absent.
fn find_after_last(v: &Vec<u8>, from: usize, b: u8) -> (r: usize)
    requires
        from <= v.len(),
    ensures
        from <= r <= v.len(),
        r > from ==> v@[r - 1] == b,
        forall|j: int| r <= j < v@.len() ==> v@[j] != b,
        r == from ==> forall|j: int| from <= j < v@.len() ==> v@[j] != b,
{
    let mut k: usize = v.len();
    while k > from
        invariant
            from <= k <= v.len(),
            forall|j: int| k <= j < v@.len() ==> v@[j] != b,
        decreases k,
    {
        if v[k - 1] == b {
            return k;
        }
        k = k - 1;
    }
    k
}

/// The extension of `path`, by the rule of `ext_spec`.
pub fn extension_of(path: &Vec<u8>) -> (r: Option<Vec<u8>>)
    ensures
        r.deep_view() == ext_spec(path@),
{
    let n = path.len();
    let name_start = find_after_last(path, 0, 47u8);
    proof {
        if name_start > 0 {
            lemma_last_index_of_unique(path@, 47u8, name_start - 1);
        } else {
            lemma_last_index_of_unique(path@, 47u8, -1);
        }
    }
    let ghost f = file_name_spec(path@);
    proof {
        assert(f =~= path@.subrange(name_start as int, n as int));
    }
    let dot_after = find_after_last(path, name_start, 46u8);
    proof {
        assert forall|j: int| dot_after - name_start <= j < f.len() implies f[j] != 46u8 by {
            assert(f[j] == path@[name_start + j]);
        }
        if dot_after > name_start {
            assert(f[dot_after - name_start - 1] == path@[dot_after - 1]);
            lemma_last_index_of_unique(f, 46u8, dot_after - name_start - 1);
        } else {
            lemma_last_index_of_unique(f, 46u8, -1);
        }
    }
    if dot_after > name_start && dot_after - name_start > 1 {
        let ext = crate::scan::subrange_vec(path, dot_after, n);
        proof {
            let d = last_index_of(f, 46u8);
            assert forall|k: int| 0 <= k < f.len() - d - 1 implies f.subrange(d + 1, f.len() as int)[k]
                == ext@[k] by {
                assert(f[d + 1 + k] == path@[name_start + d + 1 + k]);
            }
            assert(ext@ =~= f.subrange(d + 1, f.len() as int));
            assert(ext.deep_view() =~= ext@);
        }
        Some(ext)
    } else {
        None
    }
}

/// Compare a four-byte extension against the two known dialect names.
fn ext_is(ext: &Vec<u8>, a: u8, b: u8, c: u8, d: u8) -> (r: bool)
    ensures
        r == (ext@ == seq![a, b, c, d]),
{
    let hit = ext.len() == 4 && ext[0] == a && ext[1] == b && ext[2] == c && ext[3] == d;
    proof {
        if hit {
            assert(ext@ =~= seq![a, b, c, d]);
        }
    }
    hit
}

/// The dialect that `path` selects through its extension.
pub fn dialect_of(path: &Vec<u8>) -> (r: Dialect)
    ensures
        r == dialect_spec(path@),
{
    let ext = extension_of(path);
    proof {
        if ext is Some {
            assert(ext.deep_view() == Some(ext->Some_0.deep_view()));
            assert(ext->Some_0.deep_view() =~= ext->Some_0@);
        }
    }
    match ext {
        None => Dialect::Unknown,
        Some(e) => {
            if ext_is(&e, 119u8, 103u8, 115u8, 108u8) {
                Dialect::Wgsl
            } else if ext_is(&e, 103u8, 108u8, 115u8, 108u8) {
                Dialect::Glsl
            } else {
                Dialect::Unknown
            }
        },
    }
}

} // verus!
