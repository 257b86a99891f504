//! Mathematical model of a snapshot tree and of its canonical text form.
//!
//! The text grammar:
//!
//! ```text
//! node  := escaped-path ":" seconds kind
//! kind  := ";"                  (a file)
//!        | "," node* ";"        (a directory and its children)
//! ```
//!
//! In a path the characters `:` `,` `;` and `\` are written with a `\` in
//! front of them; `seconds` is written in decimal without leading zeros.
use vstd::prelude::*;

verus! {

/// One filesystem entry as a mathematical value.
pub struct NodeView {
    pub path: Seq<char>,
    pub is_f: bool,
    pub modified: nat,
    pub children: Seq<NodeView>,
}

/// Files have no children, every timestamp fits in a `u64`, at every depth.
pub open spec fn wf_node(n: NodeView) -> bool
    decreases n,
{
    &&& n.modified <= u64::MAX
    &&& (n.is_f ==> n.children.len() == 0)
    &&& forall|i: int| 0 <= i < n.children.len() ==> wf_node(#[trigger] n.children[i])
}

pub open spec fn is_delim(c: char) -> bool {
    c == ':' || c == ',' || c == ';' || c == '\\'
}

pub open spec fn escape_char(c: char) -> Seq<char> {
    if is_delim(c) {
        seq!['\\', c]
    } else {
        seq![c]
    }
}

/// A path with each delimiter preceded by a backslash.
pub open spec fn escape(p: Seq<char>) -> Seq<char>
    decreases p.len(),
{
    if p.len() == 0 {
        Seq::empty()
    } else {
        escape_char(p[0]) + escape(p.drop_first())
    }
}

pub open spec fn is_digit(c: char) -> bool {
    '0' <= c && c <= '9'
}

pub open spec fn digit_val(c: char) -> nat {
    (c as u32 - '0' as u32) as nat
}

pub open spec fn digit_char(d: nat) -> char {
    if d == 0 { '0' }
    else if d == 1 { '1' }
    else if d == 2 { '2' }
    else if d == 3 { '3' }
    else if d == 4 { '4' }
    else if d == 5 { '5' }
    else if d == 6 { '6' }
    else if d == 7 { '7' }
    else if d == 8 { '8' }
    else { '9' }
}

/// The decimal digits of `n`, most significant first, without leading zeros.
pub open spec fn digits(n: nat) -> Seq<char>
    decreases n,
{
    if n < 10 {
        seq![digit_char(n)]
    } else {
        digits(n / 10).push(digit_char(n % 10))
    }
}

/// The number that a string of decimal digits denotes.
pub open spec fn val(s: Seq<char>) -> nat
    decreases s.len(),
{
    if s.len() == 0 {
        0
    } else {
        val(s.drop_last()) * 10 + digit_val(s.last())
    }
}

/// The canonical text of a node and everything below it.
pub open spec fn ser(n: NodeView) -> Seq<char>
    decreases n, 1nat,
{
    escape(n.path) + seq![':'] + digits(n.modified) + kind_text(n)
}

/// What follows the timestamp: `;` for a file, the children for a directory.
pub open spec fn kind_text(n: NodeView) -> Seq<char>
    decreases n, 0nat,
{
    if n.is_f {
        seq![';']
    } else {
        seq![','] + ser_list(n.children) + seq![';']
    }
}

/// The canonical texts of a sequence of nodes, one after another.
pub open spec fn ser_list(cs: Seq<NodeView>) -> Seq<char>
    decreases cs, 2nat,
{
    if cs.len() == 0 {
        Seq::empty()
    } else {
        ser(cs[0]) + ser_list(cs.subrange(1, cs.len() as int))
    }
}

/// The largest timestamp in a node and everything below it.
pub open spec fn max_modified(n: NodeView) -> nat
    decreases n,
{
    let m = max_modified_list(n.children);
    if n.modified >= m { n.modified } else { m }
}

pub open spec fn max_modified_list(cs: Seq<NodeView>) -> nat
    decreases cs,
{
    if cs.len() == 0 {
        0
    } else {
        let a = max_modified(cs[0]);
        let b = max_modified_list(cs.subrange(1, cs.len() as int));
        if a >= b { a } else { b }
    }
}

} // verus!
