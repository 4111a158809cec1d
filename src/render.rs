//! The one-line text form of a list: `HEAD -> d0 -> d1 -> ... -> NONE`.
use vstd::prelude::*;
use vstd::string::StringExecFns;
use crate::node::Node;

verus! {

/// The character that writes the decimal digit `d`.
pub open spec fn digit_char(d: int) -> char {
    seq!['0', '1', '2', '3', '4', '5', '6', '7', '8', '9'][d]
}

/// The decimal numeral of `n`, without leading zeros.
pub open spec fn decimal_nat(n: nat) -> Seq<char>
    decreases n,
{
    if n < 10 {
        seq![digit_char(n as int)]
    } else {
        decimal_nat(n / 10).push(digit_char((n % 10) as int))
    }
}

/// The decimal numeral of `x`, with a leading `-` when `x` is negative.
pub open spec fn decimal(x: int) -> Seq<char> {
    if x < 0 {
        seq!['-'].add(decimal_nat((-x) as nat))
    } else {
        decimal_nat(x as nat)
    }
}

/// The payloads of `s` in decimal, separated by ` -> `.
pub open spec fn joined(s: Seq<i32>) -> Seq<char>
    decreases s.len(),
{
    if s.len() == 0 {
        Seq::empty()
    } else if s.len() == 1 {
        decimal(s[0] as int)
    } else {
        joined(s.drop_last()).add(" -> "@).add(decimal(s.last() as int))
    }
}

/// The full text form of a list whose payloads are `s`.
pub open spec fn rendering(s: Seq<i32>) -> Seq<char> {
    "HEAD -> "@.add(joined(s)).add(" -> NONE"@)
}

/// Relies on the standard `Display` of `i32` (through `ToString::to_string`): it writes
/// the decimal numeral, with a leading `-` for negative values.
#[verifier::external_body]
fn decimal_string(x: i32) -> (r: String)
    ensures
        r@ == decimal(x as int),
{
    x.to_string()
}

impl Node {
    /// The text form of the list, from head to tail. An empty list gives
    /// `HEAD ->  -> NONE`, with nothing between the two arrows.
    pub fn render(head: &Option<Box<Node>>) -> (r: String)
        ensures
            r@ == rendering(Node::seq_of(*head)),
    {
        let ghost orig = Node::seq_of(*head);
        let mut out = String::from_str("HEAD -> ");
        let mut cur = head;
        let ghost mut done: Seq<i32> = Seq::empty();
        let mut first = true;
        loop
            invariant
                first == (done.len() == 0),
                done.add(Node::seq_of(*cur)) == orig,
                out@ == "HEAD -> "@.add(joined(done)),
            ensures
                done == orig,
                out@ == "HEAD -> "@.add(joined(done)),
            decreases Node::seq_of(*cur).len(),
        {
            match cur {
                Some(node) => {
                    let ghost next_done = done.push(node.data);
                    if !first {
                        out.append(" -> ");
                    }
                    first = false;
                    let text = decimal_string(node.data);
                    out.append(text.as_str());
                    proof {
                        assert(next_done.drop_last() =~= done);
                        assert(out@ =~= "HEAD -> "@.add(joined(next_done)));
                        assert(next_done.add(Node::seq_of(node.next)) =~= orig);
                        done = next_done;
                    }
                    cur = &node.next;
                },
                None => {
                    assert(done.add(Node::seq_of(*cur)) =~= done);
                    break;
                },
            }
        }
        out.append(" -> NONE");
        out
    }
}

} // verus!
