//! Writing and reading the canonical text of a node.
use vstd::prelude::*;
use crate::model::{NodeView, digit_char, digits, escape, is_digit, kind_text, ser, ser_list, val, wf_node};
use crate::lemmas::{
    lemma_canonical, lemma_digits, lemma_escape_push, lemma_path_step, lemma_ser_first,
    lemma_ser_list_push, lemma_ser_parts, lemma_ser_prefix_free, lemma_val_prefix,
};
use crate::tree::FNode;

verus! {

/// Relies on `String::push`: appends one character.
#[verifier::external_body]
pub(crate) fn push_char(s: &mut String, c: char)
    ensures
        final(s)@ == old(s)@.push(c),
{
    s.push(c)
}

/// The characters of a string, in order.
pub fn chars_of(s: &str) -> (r: Vec<char>)
    ensures
        r@ == s@,
{
    let mut v: Vec<char> = Vec::new();
    for c in it: s.chars()
        invariant
            it.seq() == s@,
            v.len() == it.index(),
            forall|j: int| 0 <= j < v.len() ==> v@[j] == it.seq()[j],
    {
        v.push(c);
    }
    assert(v@ =~= s@);
    v
}

fn digit_char_exec(d: u64) -> (r: char)
    requires
        d < 10,
    ensures
        r == digit_char(d as nat),
{
    if d == 0 { '0' }
    else if d == 1 { '1' }
    else if d == 2 { '2' }
    else if d == 3 { '3' }
    else if d == 4 { '4' }
    else if d == 5 { '5' }
    else if d == 6 { '6' }
    else if d == 7 { '7' }
    else if d == 8 { '8' }
    else { '9' }
}

fn write_digits(out: &mut String, n: u64)
    ensures
        final(out)@ == old(out)@ + digits(n as nat),
    decreases n,
{
    if n >= 10 {
        write_digits(out, n / 10);
    }
    let c = digit_char_exec(n % 10);
    push_char(out, c);
    proof {
        if n < 10 {
            assert(digits(n as nat) == seq![digit_char(n as nat)]);
        } else {
            assert(digits(n as nat) == digits((n / 10) as nat).push(digit_char((n % 10) as nat)));
        }
        assert(final(out)@ =~= old(out)@ + digits(n as nat));
    }
}

fn write_escaped(out: &mut String, p: &String)
    ensures
        final(out)@ == old(out)@ + escape(p@),
{
    let ghost start = out@;
    for c in it: p.as_str().chars()
        invariant
            it.seq() == p@,
            0 <= it.index() <= p@.len(),
            out@ == start + escape(p@.take(it.index())),
    {
        let ghost i = it.index();
        proof {
            assert(p@.take(i + 1) =~= p@.take(i).push(c));
            lemma_escape_push(p@.take(i), c);
        }
        if c == ':' || c == ',' || c == ';' || c == '\\' {
            push_char(out, '\\');
        }
        push_char(out, c);
        assert(out@ =~= start + escape(p@.take(i + 1)));
    }
    assert(p@.take(p@.len() as int) =~= p@);
}

/// Appends the canonical text of `n` to `out`.
pub fn write_node(out: &mut String, n: &FNode)
    ensures
        final(out)@ == old(out)@ + ser(n@),
    decreases n,
{
    let ghost start = out@;
    write_escaped(out, &n.path);
    push_char(out, ':');
    write_digits(out, n.modified);
    if n.is_f {
        push_char(out, ';');
        assert(out@ =~= start + ser(n@));
    } else {
        push_char(out, ',');
        let ghost before = out@;
        let mut i: usize = 0;
        while i < n.children.len()
            invariant
                0 <= i <= n.children.len(),
                out@ == before + ser_list(n@.children.take(i as int)),
            decreases n.children.len() - i,
        {
            proof {
                assert(n@.children.take(i + 1) =~= n@.children.take(i as int).push(n@.children[i as int]));
                lemma_ser_list_push(n@.children.take(i as int), n@.children[i as int]);
            }
            write_node(out, &n.children[i]);
            i = i + 1;
        }
        assert(n@.children.take(i as int) =~= n@.children);
        push_char(out, ';');
        assert(out@ =~= start + ser(n@));
    }
}

/// `s` begins with the canonical text of some well-formed node.
#[verifier::opaque]
pub open spec fn starts_with_node(s: Seq<char>) -> bool {
    exists|tr: (NodeView, Seq<char>)| wf_node(tr.0) && s == ser(tr.0) + tr.1
}

/// The views of a sequence of nodes.
pub open spec fn views(v: Seq<FNode>) -> Seq<NodeView> {
    Seq::new(v.len(), |i: int| v[i]@)
}

/// Reads one node from `cs` at `pos`. On success returns the node and the
/// position after its text.
#[verifier::spinoff_prover]
#[verifier::rlimit(100)]
pub fn read_node(cs: &Vec<char>, pos: usize) -> (res: Option<(FNode, usize)>)
    requires
        pos <= cs.len(),
    ensures
        res matches Some((n, q)) ==> pos < q <= cs.len() && wf_node(n@)
            && cs@.subrange(pos as int, q as int) == ser(n@),
        starts_with_node(cs@.subrange(pos as int, cs.len() as int)) ==> res is Some,
    decreases cs.len() - pos,
{
    let ghost s = cs@.subrange(pos as int, cs.len() as int);
    let ghost target: Option<(NodeView, Seq<char>)> = if starts_with_node(s) {
        Some(choose|tr: (NodeView, Seq<char>)| wf_node(tr.0) && s == ser(tr.0) + tr.1)
    } else {
        None
    };
    proof {
        reveal(starts_with_node);
        assert(target matches Some(tr) ==> wf_node(tr.0) && s == ser(tr.0) + tr.1);
    }
    assert(starts_with_node(s) ==> target is Some);
    assert(s == cs@.subrange(pos as int, cs.len() as int));
    // The path, up to the first unescaped ':'.
    let mut path = String::new();
    let mut p: usize = pos;
    proof {
        if let Some(tr) = target {
            lemma_ser_parts(tr.0, tr.1);
            assert(tr.0.path.skip(0) =~= tr.0.path);
            assert(path@ =~= tr.0.path.take(0));
        }
        assert(escape(Seq::<char>::empty()) == Seq::<char>::empty());
        assert(cs@.subrange(pos as int, pos as int) =~= Seq::<char>::empty());
    }
    loop
        invariant
            s == cs@.subrange(pos as int, cs.len() as int),
            starts_with_node(s) ==> target is Some,
            target matches Some(tr) ==> wf_node(tr.0) && s == ser(tr.0) + tr.1,
            pos <= p <= cs.len(),
            escape(path@) == cs@.subrange(pos as int, p as int),
            target matches Some(tr) ==> {
                &&& path@.len() <= tr.0.path.len()
                &&& path@ == tr.0.path.take(path@.len() as int)
                &&& cs@.subrange(p as int, cs.len() as int) == escape(tr.0.path.skip(path@.len() as int))
                    + (seq![':'] + (digits(tr.0.modified) + (kind_text(tr.0) + tr.1)))
            },
        ensures
            p < cs.len(),
            cs@[p as int] == ':',
            escape(path@) == cs@.subrange(pos as int, p as int),
            target matches Some(tr) ==> path@ == tr.0.path && cs@.subrange(p as int, cs.len() as int)
                == seq![':'] + (digits(tr.0.modified) + (kind_text(tr.0) + tr.1)),
        decreases cs.len() - p,
    {
        proof {
            if let Some(tr) = target {
                lemma_path_step(path@, tr.0.path, seq![':'] + (digits(tr.0.modified) + (kind_text(tr.0) + tr.1)),
                    cs@.subrange(p as int, cs.len() as int));
            }
        }
        if p >= cs.len() {
            return None;
        }
        let c = cs[p];
        assert(c == cs@.subrange(p as int, cs.len() as int)[0]);
        if c == ':' {
            break;
        }
        if c == ',' || c == ';' {
            return None;
        }
        let ghost old_path = path@;
        if c == '\\' {
            if p + 1 >= cs.len() {
                return None;
            }
            let d = cs[p + 1];
            assert(d == cs@.subrange(p as int, cs.len() as int)[1]);
            if !(d == ':' || d == ',' || d == ';' || d == '\\') {
                return None;
            }
            push_char(&mut path, d);
            proof {
                lemma_escape_push(old_path, d);
                assert(escape(path@) =~= cs@.subrange(pos as int, p + 2));
                if let Some(tr) = target {
                    assert(cs@.subrange(p + 2, cs.len() as int) =~= cs@.subrange(p as int, cs.len() as int).skip(2));
                }
            }
            p = p + 2;
        } else {
            push_char(&mut path, c);
            proof {
                lemma_escape_push(old_path, c);
                assert(escape(path@) =~= cs@.subrange(pos as int, p + 1));
                if let Some(tr) = target {
                    assert(cs@.subrange(p + 1, cs.len() as int) =~= cs@.subrange(p as int, cs.len() as int).skip(1));
                }
            }
            p = p + 1;
        }
    }
    let ghost path_end = p;
    p = p + 1;
    // The timestamp, in decimal without leading zeros.
    let start = p;
    let mut v: u64 = 0;
    proof {
        if let Some(tr) = target {
            assert(cs@.subrange(start as int, cs.len() as int) =~= cs@.subrange(path_end as int, cs.len() as int).drop_first());
            assert(cs@.subrange(start as int, cs.len() as int) =~= digits(tr.0.modified) + (kind_text(tr.0) + tr.1));
            lemma_digits(tr.0.modified);
            assert((kind_text(tr.0) + tr.1)[0] == kind_text(tr.0)[0]);
        }
        assert(cs@.subrange(start as int, start as int) =~= Seq::<char>::empty());
        assert(val(Seq::<char>::empty()) == 0);
        assert(cs@.subrange(pos as int, start as int) =~= escape(path@) + seq![':']);
    }
    loop
        invariant
            s == cs@.subrange(pos as int, cs.len() as int),
            starts_with_node(s) ==> target is Some,
            target matches Some(tr) ==> wf_node(tr.0) && s == ser(tr.0) + tr.1,
            start <= p <= cs.len(),
            start == path_end + 1,
            forall|j: int| start <= j < p ==> is_digit(#[trigger] cs@[j]),
            v == val(cs@.subrange(start as int, p as int)),
            p > start + 1 ==> cs@[start as int] != '0',
            target matches Some(tr) ==> {
                &&& p - start <= digits(tr.0.modified).len()
                &&& cs@.subrange(start as int, p as int) == digits(tr.0.modified).take(p - start)
            },
            target matches Some(tr) ==> cs@.subrange(start as int, cs.len() as int)
                == digits(tr.0.modified) + (kind_text(tr.0) + tr.1),
            target matches Some(tr) ==> !is_digit(kind_text(tr.0)[0]),
            target matches Some(tr) ==> tr.0.modified <= u64::MAX,
            target matches Some(tr) ==> forall|j: int| 0 <= j < digits(tr.0.modified).len() ==> is_digit(#[trigger] digits(tr.0.modified)[j]),
            target matches Some(tr) ==> (digits(tr.0.modified)[0] == '0' ==> digits(tr.0.modified).len() == 1),
            target matches Some(tr) ==> val(digits(tr.0.modified)) == tr.0.modified,
        ensures
            start <= p <= cs.len(),
            p == cs.len() || !is_digit(cs@[p as int]),
        decreases cs.len() - p,
    {
        if p >= cs.len() {
            break;
        }
        let c = cs[p];
        if !('0' <= c && c <= '9') {
            break;
        }
        proof {
            if let Some(tr) = target {
                let dg = digits(tr.0.modified);
                if p - start == dg.len() {
                    assert(cs@.subrange(start as int, cs.len() as int)[p - start] == (kind_text(tr.0) + tr.1)[0]);
                }
                assert(p - start < dg.len());
                assert(cs@.subrange(start as int, cs.len() as int)[p - start] == cs@[p as int]);
                assert(cs@[p as int] == dg[p - start]);
            }
        }
        if p > start && cs[start] == '0' {
            proof {
                if let Some(tr) = target {
                    assert(cs@[start as int] == digits(tr.0.modified)[0]);
                }
            }
            return None;
        }
        let d = (c as u32 - '0' as u32) as u64;
        let ghost prefix = cs@.subrange(start as int, p + 1);
        proof {
            assert(prefix.drop_last() =~= cs@.subrange(start as int, p as int));
            assert(prefix.last() == c);
            assert(val(prefix) == v * 10 + d);
            if let Some(tr) = target {
                let dg = digits(tr.0.modified);
                assert(prefix =~= dg.take(p + 1 - start));
                lemma_val_prefix(dg, p + 1 - start);
            }
        }
        let w = v.checked_mul(10);
        if w.is_none() {
            return None;
        }
        let x = w.unwrap().checked_add(d);
        if x.is_none() {
            return None;
        }
        v = x.unwrap();
        p = p + 1;
    }
    if p == start {
        proof {
            if let Some(tr) = target {
                lemma_digits(tr.0.modified);
                let dg = digits(tr.0.modified);
                assert(cs@.subrange(start as int, cs.len() as int)[0] == dg[0]);
                assert(is_digit(dg[0]));
                assert(cs@.subrange(start as int, cs.len() as int)[0] == cs@[p as int]);
            }
        }
        return None;
    }
    let ghost dtext = cs@.subrange(start as int, p as int);
    proof {
        lemma_canonical(dtext);
        if let Some(tr) = target {
            let dg = digits(tr.0.modified);
            if p - start < dg.len() {
                assert(cs@.subrange(start as int, cs.len() as int).len() == cs.len() - start);
                assert(p < cs.len());
                assert(cs@.subrange(start as int, cs.len() as int)[p - start] == cs@[p as int]);
                assert(cs@.subrange(start as int, cs.len() as int)[p - start] == dg[p - start]);
                assert(is_digit(dg[p - start]));
            }
            assert(p - start == dg.len());
            assert(dtext =~= dg);
            assert(cs@.subrange(p as int, cs.len() as int) =~= cs@.subrange(start as int, cs.len() as int).skip(dg.len() as int));
            assert((dg + (kind_text(tr.0) + tr.1)).skip(dg.len() as int) =~= kind_text(tr.0) + tr.1);
            assert(cs@.subrange(p as int, cs.len() as int) =~= kind_text(tr.0) + tr.1);
        }
    }
    // The kind: ';' for a file, ',' and the children for a directory.
    if p >= cs.len() {
        proof {
            if let Some(tr) = target {
                assert((kind_text(tr.0) + tr.1).len() > 0);
            }
        }
        return None;
    }
    let k = cs[p];
    let ghost head = cs@.subrange(pos as int, p + 1);
    proof {
        if let Some(tr) = target {
            assert(k == (kind_text(tr.0) + tr.1)[0]);
        }
    }
    if k == ';' {
        let n = FNode { path, is_f: true, modified: v, children: Vec::new() };
        proof {
            assert(n@.children =~= Seq::<NodeView>::empty());
            assert(cs@.subrange(pos as int, p + 1) =~= ser(n@));
        }
        return Some((n, p + 1));
    }
    if k != ',' {
        return None;
    }
    p = p + 1;
    let cstart = p;
    let mut children: Vec<FNode> = Vec::new();
    proof {
        if let Some(tr) = target {
            let kr = kind_text(tr.0) + tr.1;
            assert(cs@.subrange(p - 1, cs.len() as int) == kr);
            assert(kr[0] == ',');
            assert(!tr.0.is_f);
            assert(tr.0.children.skip(0) =~= tr.0.children);
            assert(cs@.subrange(p as int, cs.len() as int) =~= kr.drop_first());
            assert(kr.drop_first() =~= ser_list(tr.0.children) + (seq![';'] + tr.1));
        }
        assert(views(children@) =~= Seq::<NodeView>::empty());
        assert(ser_list(Seq::<NodeView>::empty()) == Seq::<char>::empty());
        assert(cs@.subrange(cstart as int, p as int) =~= Seq::<char>::empty());
    }
    loop
        invariant_except_break
            target matches Some(tr) ==> {
                &&& cs@.subrange(p as int, cs.len() as int)
                    == ser_list(tr.0.children.skip(children.len() as int)) + (seq![';'] + tr.1)
            },
        invariant
            s == cs@.subrange(pos as int, cs.len() as int),
            starts_with_node(s) ==> target is Some,
            target matches Some(tr) ==> wf_node(tr.0) && s == ser(tr.0) + tr.1,
            cstart <= p <= cs.len(),
            cstart == start + dtext.len() + 1,
            pos < cstart,
            forall|j: int| 0 <= j < children.len() ==> wf_node(#[trigger] children@[j]@),
            ser_list(views(children@)) == cs@.subrange(cstart as int, p as int),
            target matches Some(tr) ==> {
                &&& !tr.0.is_f
                &&& children.len() <= tr.0.children.len()
                &&& views(children@) == tr.0.children.take(children.len() as int)
            },
            target matches Some(tr) ==> wf_node(tr.0),
        ensures
            p < cs.len(),
            cs@[p as int] == ';',
            target matches Some(tr) ==> views(children@) == tr.0.children && cs@.subrange(p as int, cs.len() as int)
                == seq![';'] + tr.1,
        decreases cs.len() - p,
    {
        let ghost rest = cs@.subrange(p as int, cs.len() as int);
        proof {
            if let Some(tr) = target {
                let tl = tr.0.children.skip(children.len() as int);
                if tl.len() == 0 {
                    assert(ser_list(tl) == Seq::<char>::empty());
                    assert(rest =~= seq![';'] + tr.1);
                } else {
                    let after = ser_list(tl.subrange(1, tl.len() as int)) + (seq![';'] + tr.1);
                    assert(rest =~= ser(tl[0]) + after);
                    lemma_ser_first(tl[0]);
                    assert(rest[0] == ser(tl[0])[0]);
                    assert(wf_node(tl[0]));
                    assert(starts_with_node(rest)) by {
                        reveal(starts_with_node);
                        assert(wf_node((tl[0], after).0) && rest == ser((tl[0], after).0) + (tl[0], after).1);
                    }
                }
            }
        }
        if p >= cs.len() {
            return None;
        }
        if cs[p] == ';' {
            assert(cs[p as int] == rest[0]);
            proof {
                if let Some(tr) = target {
                    let tl = tr.0.children.skip(children.len() as int);
                    assert(tl.len() == 0);
                    assert(tr.0.children.take(children.len() as int) =~= tr.0.children);
                }
            }
            break;
        }
        assert(cs[p as int] == rest[0]);
        let r = read_node(cs, p);
        match r {
            None => {
                return None;
            },
            Some((child, q)) => {
                let ghost old_views = views(children@);
                proof {
                    lemma_ser_list_push(old_views, child@);
                    assert(cs@.subrange(cstart as int, q as int) =~= cs@.subrange(cstart as int, p as int) + cs@.subrange(p as int, q as int));
                    if let Some(tr) = target {
                        let tl = tr.0.children.skip(children.len() as int);
                        let after = ser_list(tl.subrange(1, tl.len() as int)) + (seq![';'] + tr.1);
                        assert(rest =~= ser(child@) + cs@.subrange(q as int, cs.len() as int));
                        lemma_ser_prefix_free(child@, cs@.subrange(q as int, cs.len() as int), tl[0], after);
                        assert(tl.subrange(1, tl.len() as int) =~= tr.0.children.skip(children.len() + 1));
                        assert(old_views.push(child@) =~= tr.0.children.take(children.len() + 1));
                    }
                }
                children.push(child);
                assert(views(children@) =~= old_views.push(child@));
                p = q;
            },
        }
    }
    let n = FNode { path, is_f: false, modified: v, children };
    proof {
        assert(n@.children =~= views(n.children@));
        assert(cs@.subrange(pos as int, p + 1) =~= ser(n@));
    }
    Some((n, p + 1))
}

} // verus!
