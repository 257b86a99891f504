//! Facts about escaping, decimal digits and the canonical text form.
use vstd::prelude::*;
use crate::model::{
    NodeView, digit_char, digit_val, digits, escape, escape_char, is_delim, is_digit, kind_text,
    max_modified, max_modified_list, ser, ser_list, val, wf_node,
};

verus! {

pub proof fn lemma_digit_char(d: nat)
    requires
        d < 10,
    ensures
        is_digit(digit_char(d)),
        digit_val(digit_char(d)) == d,
        digit_char(d) == '0' <==> d == 0,
{
}

/// `digits(n)` is a non-empty string of digits, without a leading zero, denoting `n`.
pub proof fn lemma_digits(n: nat)
    ensures
        digits(n).len() >= 1,
        n >= 10 ==> digits(n).len() >= 2,
        forall|i: int| 0 <= i < digits(n).len() ==> is_digit(#[trigger] digits(n)[i]),
        digits(n)[0] == '0' ==> digits(n).len() == 1,
        val(digits(n)) == n,
    decreases n,
{
    if n < 10 {
        lemma_digit_char(n);
        assert(digits(n).drop_last() =~= Seq::<char>::empty());
        assert(val(Seq::<char>::empty()) == 0);
        assert(val(digits(n)) == val(digits(n).drop_last()) * 10 + digit_val(digits(n).last()));
    } else {
        lemma_digits(n / 10);
        lemma_digit_char(n % 10);
        assert(digits(n).drop_last() =~= digits(n / 10));
        assert(n / 10 >= 1);
        assert(digits(n)[0] == digits(n / 10)[0]);
        if digits(n / 10)[0] == '0' {
            assert(n / 10 < 10);
            lemma_digit_char(n / 10);
        }
        assert(val(digits(n)) == val(digits(n / 10)) * 10 + digit_val(digit_char(n % 10)));
        assert((n / 10) * 10 + n % 10 == n) by (nonlinear_arith);
    }
}

/// A prefix of a digit string denotes no more than the whole string.
pub proof fn lemma_val_prefix(s: Seq<char>, k: int)
    requires
        0 <= k <= s.len(),
    ensures
        val(s.take(k)) <= val(s),
    decreases s.len(),
{
    if k < s.len() {
        assert(s.drop_last().take(k) =~= s.take(k));
        lemma_val_prefix(s.drop_last(), k);
    } else {
        assert(s.take(k) =~= s);
    }
}

/// A digit string without a leading zero is the canonical text of its value.
pub proof fn lemma_canonical(s: Seq<char>)
    requires
        s.len() >= 1,
        forall|i: int| 0 <= i < s.len() ==> is_digit(#[trigger] s[i]),
        s[0] == '0' ==> s.len() == 1,
    ensures
        digits(val(s)) == s,
    decreases s.len(),
{
    let d = digit_val(s.last());
    assert(d < 10);
    if s.len() == 1 {
        assert(s.drop_last() =~= Seq::<char>::empty());
        assert(val(Seq::<char>::empty()) == 0);
        assert(val(s) == d);
        assert(digits(d) =~= s) by {
            if d == 0 {} else if d == 1 {} else if d == 2 {} else if d == 3 {} else if d == 4 {}
            else if d == 5 {} else if d == 6 {} else if d == 7 {} else if d == 8 {} else {}
        }
    } else {
        let t = s.drop_last();
        lemma_canonical(t);
        lemma_val_prefix(t, 1);
        assert(t.take(1).drop_last() =~= Seq::<char>::empty());
        assert(val(t) >= 1);
        let v = val(s);
        assert(v == val(t) * 10 + d);
        assert(v / 10 == val(t) && v % 10 == d) by (nonlinear_arith)
            requires v == val(t) * 10 + d, d < 10;
        assert(digit_char(d) == s.last()) by {
            if d == 0 {} else if d == 1 {} else if d == 2 {} else if d == 3 {} else if d == 4 {}
            else if d == 5 {} else if d == 6 {} else if d == 7 {} else if d == 8 {} else {}
        }
        assert(digits(v) =~= s);
    }
}

pub proof fn lemma_escape_append(a: Seq<char>, b: Seq<char>)
    ensures
        escape(a + b) == escape(a) + escape(b),
    decreases a.len(),
{
    if a.len() == 0 {
        assert(a + b =~= b);
        assert(escape(a) + escape(b) =~= escape(b));
    } else {
        assert((a + b).drop_first() =~= a.drop_first() + b);
        lemma_escape_append(a.drop_first(), b);
        assert(escape(a + b) =~= escape(a) + escape(b));
    }
}

/// An escaped path never begins with an unescaped delimiter.
pub proof fn lemma_escape_first(p: Seq<char>)
    ensures
        p.len() > 0 ==> escape(p).len() > 0 && escape(p)[0] != ':' && escape(p)[0] != ','
            && escape(p)[0] != ';',
{
    if p.len() > 0 {
        assert(escape(p) == escape_char(p[0]) + escape(p.drop_first()));
    }
}

/// The first unescaped `:` ends an escaped path.
pub proof fn lemma_escape_prefix_free(pa: Seq<char>, y1: Seq<char>, pb: Seq<char>, y2: Seq<char>)
    requires
        escape(pa) + y1 == escape(pb) + y2,
        y1.len() > 0 && y1[0] == ':',
        y2.len() > 0 && y2[0] == ':',
    ensures
        pa == pb,
        y1 == y2,
    decreases pa.len(),
{
    lemma_escape_first(pa);
    lemma_escape_first(pb);
    if pa.len() == 0 {
        if pb.len() > 0 {
            assert((escape(pa) + y1)[0] == ':');
            assert((escape(pb) + y2)[0] == escape(pb)[0]);
        }
        assert(pa =~= pb);
        assert(escape(pa) + y1 =~= y1);
        assert(escape(pb) + y2 =~= y2);
    } else if pb.len() == 0 {
        assert((escape(pb) + y2)[0] == ':');
        assert((escape(pa) + y1)[0] == escape(pa)[0]);
    } else {
        let c1 = pa[0];
        let c2 = pb[0];
        let e1 = escape_char(c1);
        let e2 = escape_char(c2);
        assert(escape(pa) + y1 =~= e1 + (escape(pa.drop_first()) + y1));
        assert(escape(pb) + y2 =~= e2 + (escape(pb.drop_first()) + y2));
        assert((escape(pa) + y1)[0] == e1[0]);
        assert((escape(pb) + y2)[0] == e2[0]);
        if is_delim(c1) {
            assert((escape(pa) + y1)[1] == c1);
            assert((escape(pb) + y2)[1] == c2);
        }
        assert(c1 == c2);
        assert(e1 == e2);
        let rest = escape(pa) + y1;
        assert(escape(pa.drop_first()) + y1 =~= rest.subrange(e1.len() as int, rest.len() as int));
        assert(escape(pb.drop_first()) + y2 =~= rest.subrange(e1.len() as int, rest.len() as int));
        lemma_escape_prefix_free(pa.drop_first(), y1, pb.drop_first(), y2);
        assert(pa =~= seq![c1] + pa.drop_first());
        assert(pb =~= seq![c2] + pb.drop_first());
    }
}

/// The first character after the digits of a number ends them.
pub proof fn lemma_digits_prefix_free(m1: nat, y1: Seq<char>, m2: nat, y2: Seq<char>)
    requires
        digits(m1) + y1 == digits(m2) + y2,
        y1.len() > 0 && !is_digit(y1[0]),
        y2.len() > 0 && !is_digit(y2[0]),
    ensures
        m1 == m2,
        y1 == y2,
{
    lemma_digits(m1);
    lemma_digits(m2);
    let d1 = digits(m1);
    let d2 = digits(m2);
    let s = digits(m1) + y1;
    if d1.len() < d2.len() {
        assert(s[d1.len() as int] == y1[0]);
        assert(s[d1.len() as int] == d2[d1.len() as int]);
    }
    if d2.len() < d1.len() {
        assert(s[d2.len() as int] == y2[0]);
        assert(s[d2.len() as int] == d1[d2.len() as int]);
    }
    assert(d1 =~= s.subrange(0, d1.len() as int));
    assert(d2 =~= s.subrange(0, d2.len() as int));
    assert(y1 =~= s.subrange(d1.len() as int, s.len() as int));
    assert(y2 =~= s.subrange(d2.len() as int, s.len() as int));
}

/// The canonical text of a node is never empty and never begins with `;`.
pub proof fn lemma_ser_first(n: NodeView)
    ensures
        ser(n).len() > 0,
        ser(n)[0] != ';',
{
    lemma_escape_first(n.path);
    if n.path.len() > 0 {
        assert(ser(n)[0] == escape(n.path)[0]);
    } else {
        assert(ser(n)[0] == ':');
    }
}

/// The text of a node splits as `escape(path) ":" digits kind`.
pub proof fn lemma_ser_parts(n: NodeView, r: Seq<char>)
    ensures
        ser(n) + r == escape(n.path) + (seq![':'] + (digits(n.modified) + (kind_text(n) + r))),
{
    assert(ser(n) + r =~= escape(n.path) + (seq![':'] + (digits(n.modified) + (kind_text(n) + r))));
}

/// A canonical text has exactly one node at its front.
pub proof fn lemma_ser_prefix_free(t1: NodeView, r1: Seq<char>, t2: NodeView, r2: Seq<char>)
    requires
        wf_node(t1),
        wf_node(t2),
        ser(t1) + r1 == ser(t2) + r2,
    ensures
        t1 == t2,
        r1 == r2,
    decreases t1,
{
    lemma_ser_parts(t1, r1);
    lemma_ser_parts(t2, r2);
    let x1 = seq![':'] + (digits(t1.modified) + (kind_text(t1) + r1));
    let x2 = seq![':'] + (digits(t2.modified) + (kind_text(t2) + r2));
    lemma_escape_prefix_free(t1.path, x1, t2.path, x2);
    assert(x1.drop_first() =~= digits(t1.modified) + (kind_text(t1) + r1));
    assert(x2.drop_first() =~= digits(t2.modified) + (kind_text(t2) + r2));
    assert((kind_text(t1) + r1)[0] == kind_text(t1)[0]);
    assert((kind_text(t2) + r2)[0] == kind_text(t2)[0]);
    lemma_digits_prefix_free(t1.modified, kind_text(t1) + r1, t2.modified, kind_text(t2) + r2);
    assert(t1.is_f == t2.is_f);
    if t1.is_f {
        assert(kind_text(t1) + r1 =~= seq![';'] + r1);
        assert(kind_text(t2) + r2 =~= seq![';'] + r2);
        assert(r1 =~= (kind_text(t1) + r1).drop_first());
        assert(r2 =~= (kind_text(t2) + r2).drop_first());
        assert(t1.children =~= t2.children);
    } else {
        let k = kind_text(t1) + r1;
        assert(k.drop_first() =~= ser_list(t1.children) + (seq![';'] + r1));
        assert(k.drop_first() =~= ser_list(t2.children) + (seq![';'] + r2));
        lemma_ser_list_prefix_free(t1.children, r1, t2.children, r2);
    }
}

/// A canonical list of nodes closed by `;` is read back in exactly one way.
pub proof fn lemma_ser_list_prefix_free(c1: Seq<NodeView>, r1: Seq<char>, c2: Seq<NodeView>, r2: Seq<char>)
    requires
        forall|i: int| 0 <= i < c1.len() ==> wf_node(#[trigger] c1[i]),
        forall|i: int| 0 <= i < c2.len() ==> wf_node(#[trigger] c2[i]),
        ser_list(c1) + (seq![';'] + r1) == ser_list(c2) + (seq![';'] + r2),
    ensures
        c1 == c2,
        r1 == r2,
    decreases c1,
{
    let s = ser_list(c1) + (seq![';'] + r1);
    if c1.len() == 0 {
        assert(s =~= seq![';'] + r1);
        if c2.len() > 0 {
            lemma_ser_first(c2[0]);
            assert(ser_list(c2) + (seq![';'] + r2) =~= ser(c2[0]) + (ser_list(c2.subrange(1, c2.len() as int)) + (seq![';'] + r2)));
            assert(s[0] == ser(c2[0])[0]);
        }
        assert(c1 =~= c2);
        assert(ser_list(c2) + (seq![';'] + r2) =~= seq![';'] + r2);
        assert(r1 =~= s.drop_first());
        assert(r2 =~= s.drop_first());
    } else if c2.len() == 0 {
        lemma_ser_first(c1[0]);
        assert(s =~= ser(c1[0]) + (ser_list(c1.subrange(1, c1.len() as int)) + (seq![';'] + r1)));
        assert(ser_list(c2) + (seq![';'] + r2) =~= seq![';'] + r2);
        assert(s[0] == ser(c1[0])[0]);
    } else {
        let tl1 = c1.subrange(1, c1.len() as int);
        let tl2 = c2.subrange(1, c2.len() as int);
        assert(s =~= ser(c1[0]) + (ser_list(tl1) + (seq![';'] + r1)));
        assert(s =~= ser(c2[0]) + (ser_list(tl2) + (seq![';'] + r2)));
        lemma_ser_prefix_free(c1[0], ser_list(tl1) + (seq![';'] + r1), c2[0], ser_list(tl2) + (seq![';'] + r2));
        lemma_ser_list_prefix_free(tl1, r1, tl2, r2);
        assert(c1.len() == c2.len());
        assert forall|i: int| 0 <= i < c1.len() implies c1[i] == c2[i] by {
            if i > 0 {
                assert(c1[i] == tl1[i - 1]);
                assert(c2[i] == tl2[i - 1]);
            }
        }
        assert(c1 =~= c2);
    }
}

pub proof fn lemma_escape_push(p: Seq<char>, c: char)
    ensures
        escape(p.push(c)) == escape(p) + escape_char(c),
{
    lemma_escape_append(p, seq![c]);
    assert(p.push(c) =~= p + seq![c]);
    assert(seq![c].drop_first() =~= Seq::<char>::empty());
    assert(escape(Seq::<char>::empty()) == Seq::<char>::empty());
    assert(escape(seq![c]) == escape_char(c) + escape(seq![c].drop_first()));
    assert(escape(seq![c]) =~= escape_char(c));
}

pub proof fn lemma_ser_list_push(cs: Seq<NodeView>, x: NodeView)
    ensures
        ser_list(cs.push(x)) == ser_list(cs) + ser(x),
    decreases cs.len(),
{
    if cs.len() == 0 {
        assert(cs.push(x).subrange(1, 1) =~= Seq::<NodeView>::empty());
        assert(ser_list(Seq::<NodeView>::empty()) == Seq::<char>::empty());
        assert(ser_list(cs.push(x)) == ser(x) + ser_list(cs.push(x).subrange(1, 1)));
        assert(ser_list(cs.push(x)) =~= ser(x));
        assert(ser_list(cs) + ser(x) =~= ser(x));
    } else {
        let tl = cs.subrange(1, cs.len() as int);
        assert(cs.push(x).subrange(1, (cs.len() + 1) as int) =~= tl.push(x));
        lemma_ser_list_push(tl, x);
        assert(ser_list(cs.push(x)) =~= ser_list(cs) + ser(x));
    }
}

/// One step of reading an escaped path that a canonical text holds.
pub proof fn lemma_path_step(path: Seq<char>, tpath: Seq<char>, x: Seq<char>, rest: Seq<char>)
    requires
        path.len() <= tpath.len(),
        path == tpath.take(path.len() as int),
        rest == escape(tpath.skip(path.len() as int)) + x,
        x.len() > 0 && x[0] == ':',
    ensures
        rest.len() > 0,
        rest[0] == ':' ==> path == tpath && rest == x,
        rest[0] != ':' ==> {
            let c = tpath[path.len() as int];
            &&& path.len() < tpath.len()
            &&& path.push(c) == tpath.take((path.len() + 1) as int)
            &&& rest[0] != ',' && rest[0] != ';'
            &&& is_delim(c) ==> rest[0] == '\\' && rest.len() > 1 && rest[1] == c
                && rest.skip(2) == escape(tpath.skip((path.len() + 1) as int)) + x
            &&& !is_delim(c) ==> rest[0] == c && rest[0] != '\\'
                && rest.skip(1) == escape(tpath.skip((path.len() + 1) as int)) + x
        },
{
    let tl = tpath.skip(path.len() as int);
    lemma_escape_first(tl);
    if tl.len() == 0 {
        assert(path =~= tpath);
        assert(escape(tl) =~= Seq::<char>::empty());
        assert(rest =~= x);
    } else {
        let c = tpath[path.len() as int];
        assert(tl[0] == c);
        assert(tl.drop_first() =~= tpath.skip((path.len() + 1) as int));
        assert(escape(tl) == escape_char(c) + escape(tpath.skip((path.len() + 1) as int)));
        assert(rest =~= escape_char(c) + (escape(tpath.skip((path.len() + 1) as int)) + x));
        assert(rest[0] == escape(tl)[0]);
        assert(path.push(c) =~= tpath.take((path.len() + 1) as int));
        if is_delim(c) {
            assert(rest.skip(2) =~= escape(tpath.skip((path.len() + 1) as int)) + x);
        } else {
            assert(rest.skip(1) =~= escape(tpath.skip((path.len() + 1) as int)) + x);
        }
    }
}

pub proof fn lemma_max_list_push(cs: Seq<NodeView>, x: NodeView)
    ensures
        max_modified_list(cs.push(x)) == if max_modified_list(cs) >= max_modified(x) {
            max_modified_list(cs)
        } else {
            max_modified(x)
        },
    decreases cs.len(),
{
    if cs.len() == 0 {
        assert(cs.push(x).subrange(1, 1) =~= Seq::<NodeView>::empty());
        assert(max_modified_list(Seq::<NodeView>::empty()) == 0);
    } else {
        let tl = cs.subrange(1, cs.len() as int);
        assert(cs.push(x).subrange(1, (cs.len() + 1) as int) =~= tl.push(x));
        lemma_max_list_push(tl, x);
    }
}

} // verus!
