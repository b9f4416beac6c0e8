//! Placeholder substitution on the bytes of one template file.
//!
//! A placeholder is `${NAME}`, where `NAME` is a non-empty run of ASCII
//! letters, digits and underscores. A placeholder whose name the mapping holds
//! is replaced by that variable's value (UTF-8). A placeholder whose name the
//! mapping does not hold, and any `${` that does not open a placeholder, is
//! left in the output unchanged: a missing variable never turns into an empty
//! string. Substitution is a single left-to-right pass; values are not
//! themselves scanned for placeholders. A file holding a zero byte is taken as
//! binary and copied byte for byte.

use vstd::prelude::*;
use vstd::utf8::encode_utf8;
use crate::vars::{VarMap, has_byte_key, key_of_bytes};

verus! {

pub open spec fn is_name_byte(b: u8) -> bool {
    (0x41 <= b <= 0x5a) || (0x61 <= b <= 0x7a) || (0x30 <= b <= 0x39) || b == 0x5f
}

/// The end of the run of name bytes that starts at `k`.
pub open spec fn name_end(t: Seq<u8>, k: int) -> int
    decreases t.len() - k,
{
    if 0 <= k < t.len() && is_name_byte(t[k]) {
        name_end(t, k + 1)
    } else {
        k
    }
}

/// A placeholder `${NAME}` starts at `i`; its name spans
/// `i + 2 .. name_end(t, i + 2)` and its closing brace stands at that end.
pub open spec fn placeholder_at(t: Seq<u8>, i: int) -> bool {
    &&& 0 <= i
    &&& i + 2 < t.len()
    &&& t[i] == 0x24
    &&& t[i + 1] == 0x7b
    &&& name_end(t, i + 2) > i + 2
    &&& name_end(t, i + 2) < t.len()
    &&& t[name_end(t, i + 2)] == 0x7d
}

/// The name bytes of the placeholder at `i`.
pub open spec fn placeholder_name(t: Seq<u8>, i: int) -> Seq<u8> {
    t.subrange(i + 2, name_end(t, i + 2))
}

/// The placeholder at `i` names a variable of the mapping.
pub open spec fn substitutes_at(t: Seq<u8>, vars: Map<Seq<char>, Seq<char>>, i: int) -> bool {
    placeholder_at(t, i) && has_byte_key(vars, placeholder_name(t, i))
}

/// The rendering of `t` from position `i` on.
pub open spec fn render_from(t: Seq<u8>, vars: Map<Seq<char>, Seq<char>>, i: int) -> Seq<u8>
    decreases t.len() - i,
{
    if i >= t.len() {
        Seq::empty()
    } else if substitutes_at(t, vars, i) {
        encode_utf8(vars[key_of_bytes(placeholder_name(t, i))]) + render_from(
            t,
            vars,
            name_end(t, i + 2) + 1,
        )
    } else {
        seq![t[i]] + render_from(t, vars, i + 1)
    }
}

/// The rendering of a whole text.
pub open spec fn render_text(t: Seq<u8>, vars: Map<Seq<char>, Seq<char>>) -> Seq<u8> {
    render_from(t, vars, 0)
}

/// The contents hold a zero byte, which marks a file as binary.
pub open spec fn is_binary(c: Seq<u8>) -> bool {
    exists|i: int| 0 <= i < c.len() && c[i] == 0
}

/// What a template file becomes: binary files unchanged, text rendered.
pub open spec fn render_file(c: Seq<u8>, vars: Map<Seq<char>, Seq<char>>) -> Seq<u8> {
    if is_binary(c) {
        c
    } else {
        render_text(c, vars)
    }
}

fn name_byte(b: u8) -> (r: bool)
    ensures
        r == is_name_byte(b),
{
    (0x41 <= b && b <= 0x5a) || (0x61 <= b && b <= 0x7a) || (0x30 <= b && b <= 0x39) || b == 0x5f
}

fn scan_name(t: &[u8], k: usize) -> (e: usize)
    requires
        k <= t@.len(),
    ensures
        e == name_end(t@, k as int),
        k <= e <= t@.len(),
{
    let mut e = k;
    while e < t.len() && name_byte(t[e])
        invariant
            k <= e <= t@.len(),
            name_end(t@, k as int) == name_end(t@, e as int),
        decreases t@.len() - e,
    {
        e = e + 1;
    }
    e
}

fn append_bytes(out: &mut Vec<u8>, b: &[u8])
    ensures
        final(out)@ == old(out)@ + b@,
{
    let mut i: usize = 0;
    while i < b.len()
        invariant
            i <= b@.len(),
            out@ == old(out)@ + b@.subrange(0, i as int),
        decreases b@.len() - i,
    {
        out.push(b[i]);
        assert(b@.subrange(0, i + 1) =~= b@.subrange(0, i as int).push(b@[i as int]));
        i = i + 1;
    }
    assert(b@.subrange(0, b@.len() as int) =~= b@);
}

/// Replaces each placeholder of `t` that names a variable of `vars` by its
/// value; everything else is copied.
pub fn substitute(t: &[u8], vars: &VarMap) -> (r: Vec<u8>)
    ensures
        r@ == render_text(t@, vars@),
{
    let mut out: Vec<u8> = Vec::new();
    let mut i: usize = 0;
    while i < t.len()
        invariant
            i <= t@.len(),
            out@ + render_from(t@, vars@, i as int) == render_text(t@, vars@),
        decreases t@.len() - i,
    {
        let mut replaced = false;
        if t.len() - i > 2 && t[i] == 0x24 && t[i + 1] == 0x7b {
            let e = scan_name(t, i + 2);
            if e > i + 2 && e < t.len() && t[e] == 0x7d {
                match vars.get_by_bytes(t, i + 2, e) {
                    Some(v) => {
                        let ghost before = out@;
                        append_bytes(&mut out, v.as_str().as_bytes());
                        proof {
                            assert(substitutes_at(t@, vars@, i as int));
                            assert(out@ + render_from(t@, vars@, e + 1) =~= before + render_from(
                                t@,
                                vars@,
                                i as int,
                            ));
                        }
                        i = e + 1;
                        replaced = true;
                    },
                    None => {},
                }
            }
        }
        if !replaced {
            let ghost before = out@;
            out.push(t[i]);
            proof {
                assert(!substitutes_at(t@, vars@, i as int));
                assert(out@ + render_from(t@, vars@, i + 1) =~= before + render_from(
                    t@,
                    vars@,
                    i as int,
                ));
            }
            i = i + 1;
        }
    }
    assert(out@ =~= out@ + render_from(t@, vars@, i as int));
    out
}

/// Whether the contents hold a zero byte.
pub fn looks_binary(c: &[u8]) -> (r: bool)
    ensures
        r == is_binary(c@),
{
    let mut i: usize = 0;
    while i < c.len()
        invariant
            i <= c@.len(),
            forall|j: int| 0 <= j < i ==> c@[j] != 0,
        decreases c@.len() - i,
    {
        if c[i] == 0 {
            return true;
        }
        i = i + 1;
    }
    false
}

/// The bytes that a template file contributes to the output tree.
pub fn render_contents(c: &[u8], vars: &VarMap) -> (r: Vec<u8>)
    ensures
        r@ == render_file(c@, vars@),
{
    if looks_binary(c) {
        let mut r: Vec<u8> = Vec::new();
        append_bytes(&mut r, c);
        assert(r@ =~= c@);
        r
    } else {
        substitute(c, vars)
    }
}

} // verus!
