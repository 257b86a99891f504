//! Resolving a configured path line: `$NAME` segments are replaced by the
//! values of environment variables, which the caller looks up and hands in.
use vstd::prelude::*;
use crate::codec::{chars_of, push_char};
use crate::tree::SnapshotError;

verus! {

/// The `/`-separated segments of a line; empty segments are kept.
pub open spec fn split_slash(s: Seq<char>) -> Seq<Seq<char>>
    decreases s.len(),
{
    if s.len() == 0 {
        seq![Seq::empty()]
    } else {
        let p = split_slash(s.drop_last());
        if s.last() == '/' {
            p.push(Seq::empty())
        } else {
            p.update(p.len() - 1, p.last().push(s.last()))
        }
    }
}

pub open spec fn is_var(seg: Seq<char>) -> bool {
    seg.len() > 0 && seg[0] == '$'
}

/// The names that the `$NAME` segments refer to, in order.
pub open spec fn var_names(segs: Seq<Seq<char>>) -> Seq<Seq<char>>
    decreases segs.len(),
{
    if segs.len() == 0 {
        Seq::empty()
    } else {
        let r = var_names(segs.drop_last());
        if is_var(segs.last()) {
            r.push(segs.last().drop_first())
        } else {
            r
        }
    }
}

/// The segments with the `k`-th `$NAME` segment replaced by `vals[k]`.
pub open spec fn substitute(segs: Seq<Seq<char>>, vals: Seq<Seq<char>>) -> Seq<Seq<char>>
    decreases segs.len(),
{
    if segs.len() == 0 {
        Seq::empty()
    } else if is_var(segs.last()) {
        substitute(segs.drop_last(), vals.drop_last()).push(vals.last())
    } else {
        substitute(segs.drop_last(), vals).push(segs.last())
    }
}

/// The parts joined with `/`.
pub open spec fn join(parts: Seq<Seq<char>>) -> Seq<char>
    decreases parts.len(),
{
    if parts.len() == 0 {
        Seq::empty()
    } else if parts.len() == 1 {
        parts[0]
    } else {
        join(parts.drop_last()) + seq!['/'] + parts.last()
    }
}

pub open spec fn char_views(v: Seq<Vec<char>>) -> Seq<Seq<char>> {
    Seq::new(v.len(), |i: int| v[i]@)
}

pub open spec fn string_views(v: Seq<String>) -> Seq<Seq<char>> {
    Seq::new(v.len(), |i: int| v[i]@)
}

proof fn lemma_split_nonempty(s: Seq<char>)
    ensures
        split_slash(s).len() >= 1,
    decreases s.len(),
{
    if s.len() > 0 {
        lemma_split_nonempty(s.drop_last());
    }
}

fn string_of(v: &Vec<char>) -> (r: String)
    ensures
        r@ == v@,
{
    let mut s = String::new();
    let mut i: usize = 0;
    while i < v.len()
        invariant
            0 <= i <= v.len(),
            s@ == v@.take(i as int),
        decreases v.len() - i,
    {
        push_char(&mut s, v[i]);
        assert(v@.take(i + 1) =~= v@.take(i as int).push(v@[i as int]));
        i = i + 1;
    }
    assert(v@.take(i as int) =~= v@);
    s
}

fn split_segments(cs: &Vec<char>) -> (r: Vec<Vec<char>>)
    ensures
        char_views(r@) == split_slash(cs@),
{
    let mut done: Vec<Vec<char>> = Vec::new();
    let mut cur: Vec<char> = Vec::new();
    let mut i: usize = 0;
    assert(cs@.take(0) =~= Seq::<char>::empty());
    assert(char_views(done@).push(cur@) =~= split_slash(cs@.take(0)));
    while i < cs.len()
        invariant
            0 <= i <= cs.len(),
            char_views(done@).push(cur@) == split_slash(cs@.take(i as int)),
        decreases cs.len() - i,
    {
        let c = cs[i];
        let ghost before = char_views(done@).push(cur@);
        proof {
            assert(cs@.take(i + 1).drop_last() =~= cs@.take(i as int));
            assert(cs@.take(i + 1).last() == c);
        }
        if c == '/' {
            let full = cur;
            done.push(full);
            cur = Vec::new();
            assert(char_views(done@).push(cur@) =~= before.push(Seq::empty()));
        } else {
            cur.push(c);
            assert(char_views(done@).push(cur@) =~= before.update(before.len() - 1, before.last().push(c)));
        }
        i = i + 1;
    }
    assert(cs@.take(i as int) =~= cs@);
    done.push(cur);
    assert(char_views(done@) =~= split_slash(cs@));
    done
}

fn is_var_exec(seg: &Vec<char>) -> (r: bool)
    ensures
        r == is_var(seg@),
{
    seg.len() > 0 && seg[0] == '$'
}

fn drop_first_chars(seg: &Vec<char>) -> (r: Vec<char>)
    requires
        seg.len() > 0,
    ensures
        r@ == seg@.drop_first(),
{
    let mut r: Vec<char> = Vec::new();
    let mut i: usize = 1;
    while i < seg.len()
        invariant
            1 <= i <= seg.len(),
            r@ == seg@.subrange(1, i as int),
        decreases seg.len() - i,
    {
        r.push(seg[i]);
        assert(seg@.subrange(1, i + 1) =~= seg@.subrange(1, i as int).push(seg@[i as int]));
        i = i + 1;
    }
    r
}

/// The names of the environment variables that `line` refers to, in order of
/// appearance.
pub fn env_names(line: &str) -> (r: Vec<String>)
    ensures
        string_views(r@) == var_names(split_slash(line@)),
{
    let cs = chars_of(line);
    let segs = split_segments(&cs);
    let ghost sv = char_views(segs@);
    let mut r: Vec<String> = Vec::new();
    let mut i: usize = 0;
    assert(sv.take(0) =~= Seq::<Seq<char>>::empty());
    assert(string_views(r@) =~= Seq::<Seq<char>>::empty());
    while i < segs.len()
        invariant
            0 <= i <= segs.len(),
            sv == char_views(segs@),
            string_views(r@) == var_names(sv.take(i as int)),
        decreases segs.len() - i,
    {
        let ghost before = string_views(r@);
        assert(sv.take(i + 1).drop_last() =~= sv.take(i as int));
        assert(sv.take(i + 1).last() == segs@[i as int]@);
        if is_var_exec(&segs[i]) {
            let name = drop_first_chars(&segs[i]);
            let s = string_of(&name);
            r.push(s);
            assert(string_views(r@) =~= before.push(segs@[i as int]@.drop_first()));
        } else {
            assert(string_views(r@) =~= before);
        }
        i = i + 1;
    }
    assert(sv.take(i as int) =~= sv);
    r
}

pub open spec fn all_set(values: Seq<Option<String>>) -> bool {
    forall|k: int| 0 <= k < values.len() ==> (#[trigger] values[k]) is Some
}

pub open spec fn set_values(values: Seq<Option<String>>) -> Seq<Seq<char>> {
    Seq::new(values.len(), |k: int| values[k]->Some_0@)
}

/// Resolves one line. `values[k]` is the value of the `k`-th variable that
/// `env_names(line)` lists, or `None` where that variable is unset. Fails with
/// `MissingEnvVar` naming the first unset variable; otherwise returns the line
/// with each `$NAME` segment replaced by its value.
pub fn resolve_line(line: &str, values: &Vec<Option<String>>) -> (r: Result<String, SnapshotError>)
    requires
        values.len() == var_names(split_slash(line@)).len(),
    ensures
        r is Ok <==> all_set(values@),
        r matches Ok(p) ==> p@ == join(substitute(split_slash(line@), set_values(values@))),
        r matches Err(e) ==> exists|k: int|
            0 <= k < values.len() && values@[k] is None
                && (forall|j: int| 0 <= j < k ==> (#[trigger] values@[j]) is Some)
                && (e matches SnapshotError::MissingEnvVar(n) && n@ == var_names(split_slash(line@))[k]),
{
    let names = env_names(line);
    let mut k: usize = 0;
    let mut vals: Vec<Vec<char>> = Vec::new();
    while k < values.len()
        invariant
            0 <= k <= values.len(),
            values.len() == names.len(),
            string_views(names@) == var_names(split_slash(line@)),
            forall|j: int| 0 <= j < k ==> (#[trigger] values@[j]) is Some,
            char_views(vals@) == set_values(values@).take(k as int),
        decreases values.len() - k,
    {
        match &values[k] {
            None => {
                let n = names[k].clone();
                assert(string_views(names@)[k as int] == names@[k as int]@);
                return Err(SnapshotError::MissingEnvVar(n));
            },
            Some(v) => {
                let ghost before = char_views(vals@);
                let ghost oldv = vals@;
                assert(before.len() == k);
                let vc = chars_of(v.as_str());
                assert(set_values(values@)[k as int] == v@);
                vals.push(vc);
                assert forall|i: int| 0 <= i < k + 1 implies #[trigger] char_views(vals@)[i] == set_values(values@).take(k + 1)[i] by {
                    assert(vals@ == oldv.push(vc));
                    if i < k {
                        assert(char_views(vals@)[i] == vals@[i]@);
                        assert(vals@[i] == oldv[i]);
                        assert(before[i] == oldv[i]@);
                    } else {
                        assert(char_views(vals@)[i] == vc@);
                    }
                }
                assert(char_views(vals@) =~= set_values(values@).take(k + 1));
            },
        }
        k = k + 1;
    }
    assert(set_values(values@).take(k as int) =~= set_values(values@));
    let cs = chars_of(line);
    let segs = split_segments(&cs);
    let ghost sv = char_views(segs@);
    let ghost vv = char_views(vals@);
    let mut out: Vec<char> = Vec::new();
    let mut i: usize = 0;
    let mut j: usize = 0;
    proof {
        lemma_split_nonempty(line@);
        lemma_names_len_prefix(sv, 0);
        assert(sv.take(0) =~= Seq::<Seq<char>>::empty());
        assert(vv.take(0) =~= Seq::<Seq<char>>::empty());
    }
    while i < segs.len()
        invariant
            0 <= i <= segs.len(),
            sv == char_views(segs@),
            sv == split_slash(line@),
            vv == char_views(vals@),
            vv.len() == var_names(sv).len(),
            j == var_names(sv.take(i as int)).len(),
            j <= vv.len(),
            out@ == join(substitute(sv.take(i as int), vv.take(j as int))),
            substitute(sv.take(i as int), vv.take(j as int)).len() == i,
        decreases segs.len() - i,
    {
        let ghost parts = substitute(sv.take(i as int), vv.take(j as int));
        proof {
            assert(sv.take(i + 1).drop_last() =~= sv.take(i as int));
            assert(sv.take(i + 1).last() == sv[i as int]);
            lemma_names_len_prefix(sv, i + 1);
        }
        if i > 0 {
            out.push('/');
        }
        let var = is_var_exec(&segs[i]);
        let ghost piece = if var { vv[j as int] } else { sv[i as int] };
        if var {
            assert(j < vv.len());
            assert(vv.len() == vals@.len());
            append_chars(&mut out, &vals[j]);
            proof {
                assert(vv.take(j + 1).drop_last() =~= vv.take(j as int));
                assert(vv.take(j + 1).last() == vv[j as int]);
            }
            let nv = vals.len();
            assert(j < nv);
            j = j + 1;
        } else {
            append_chars(&mut out, &segs[i]);
        }
        proof {
            let np = substitute(sv.take(i + 1), vv.take(j as int));
            assert(np == parts.push(piece));
            assert(np.drop_last() =~= parts);
            if i == 0 {
                assert(out@ =~= piece);
            } else {
                assert(out@ =~= join(parts) + seq!['/'] + piece);
            }
        }
        i = i + 1;
    }
    proof {
        assert(sv.take(i as int) =~= sv);
        assert(vv.take(j as int) =~= vv);
    }
    Ok(string_of(&out))
}

proof fn lemma_names_len_prefix(sv: Seq<Seq<char>>, i: int)
    requires
        0 <= i <= sv.len(),
    ensures
        var_names(sv.take(i)).len() <= var_names(sv).len(),
    decreases sv.len(),
{
    if i < sv.len() {
        assert(sv.drop_last().take(i) =~= sv.take(i));
        lemma_names_len_prefix(sv.drop_last(), i);
    } else {
        assert(sv.take(i) =~= sv);
    }
}

fn append_chars(out: &mut Vec<char>, v: &Vec<char>)
    ensures
        final(out)@ == old(out)@ + v@,
{
    let mut i: usize = 0;
    while i < v.len()
        invariant
            0 <= i <= v.len(),
            out@ == old(out)@ + v@.take(i as int),
        decreases v.len() - i,
    {
        out.push(v[i]);
        assert(v@.take(i + 1) =~= v@.take(i as int).push(v@[i as int]));
        i = i + 1;
    }
    assert(v@.take(i as int) =~= v@);
}

} // verus!
