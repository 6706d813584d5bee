use crate::board::{Board, GameOutcome};
use crate::hash::{hex_of, MurMurHasher};
use crate::mcts_node::MctsNode;
use crate::search_tree::{same_ids, SearchTree};
use vstd::bytes::spec_u128_to_le_bytes;
use vstd::prelude::*;
use vstd::string::StringExecFns;

verus! {

/// The character for a decimal digit.
pub open spec fn digit_char(d: int) -> char {
    ('0' as int + d) as char
}

/// A natural number in decimal digits, without leading zeros.
pub open spec fn decimal(n: nat) -> Seq<char>
    decreases n,
{
    if n < 10 {
        seq![digit_char(n as int)]
    } else {
        decimal(n / 10).push(digit_char((n % 10) as int))
    }
}

/// An integer in decimal digits, with a minus sign in front if it is negative.
pub open spec fn signed_decimal(n: int) -> Seq<char> {
    if n < 0 {
        seq!['-'] + decimal((-n) as nat)
    } else {
        decimal(n as nat)
    }
}

/// The number that stands for an outcome in the text of a tree.
pub open spec fn outcome_number(outcome: GameOutcome) -> int {
    match outcome {
        GameOutcome::InProgress => 0,
        GameOutcome::Win => 1,
        GameOutcome::Lose => 2,
        GameOutcome::Draw => 3,
    }
}

/// What the text of a node lists: its id, depth, wins, draws and visits,
/// the number of its outcome, and 1 or 0 for its flag.
pub open spec fn node_fields<T: Board>(node: MctsNode<T>) -> Seq<int> {
    seq![
        node.id as int,
        node.height as int,
        node.wins as int,
        node.draws as int,
        node.visits as int,
        outcome_number(node.outcome),
        if node.is_fully_calculated {
            1
        } else {
            0
        },
    ]
}

/// The first `n` of the numbers in decimal digits, with commas between them.
pub open spec fn joined(numbers: Seq<int>, n: nat) -> Seq<char>
    decreases n,
{
    if n == 0 {
        Seq::empty()
    } else if n == 1 {
        signed_decimal(numbers[0])
    } else {
        joined(numbers, (n - 1) as nat) + seq![','] + signed_decimal(numbers[n - 1])
    }
}

/// The text of one node: what it lists, between brackets and with commas
/// between the numbers.
pub open spec fn node_text<T: Board>(node: MctsNode<T>) -> Seq<char> {
    seq!['('] + joined(node_fields(node), 7) + seq![')']
}

/// Returns the text of one decimal digit.
fn digit_text(d: u64) -> (text: &'static str)
    requires
        d < 10,
    ensures
        text@ == seq![digit_char(d as int)],
{
    proof {
        reveal_strlit("0");
        reveal_strlit("1");
        reveal_strlit("2");
        reveal_strlit("3");
        reveal_strlit("4");
        reveal_strlit("5");
        reveal_strlit("6");
        reveal_strlit("7");
        reveal_strlit("8");
        reveal_strlit("9");
    }
    let text = if d == 0 {
        "0"
    } else if d == 1 {
        "1"
    } else if d == 2 {
        "2"
    } else if d == 3 {
        "3"
    } else if d == 4 {
        "4"
    } else if d == 5 {
        "5"
    } else if d == 6 {
        "6"
    } else if d == 7 {
        "7"
    } else if d == 8 {
        "8"
    } else {
        "9"
    };
    assert(text@ =~= seq![digit_char(d as int)]);
    text
}

/// Appends a natural number in decimal digits to a text.
pub fn write_decimal(n: u64, text: &mut String)
    ensures
        final(text)@ == old(text)@ + decimal(n as nat),
    decreases n,
{
    if n >= 10 {
        write_decimal(n / 10, text);
    }
    text.append(digit_text(n % 10));
    proof {
        if n >= 10 {
            assert(old(text)@ + decimal((n / 10) as nat) + seq![digit_char((n % 10) as int)]
                =~= old(text)@ + decimal(n as nat));
        }
    }
}

/// Appends an integer in decimal digits to a text, with a minus sign in
/// front if it is negative.
pub fn write_signed(n: i32, text: &mut String)
    ensures
        final(text)@ == old(text)@ + signed_decimal(n as int),
{
    if n < 0 {
        proof {
            reveal_strlit("-");
        }
        text.append("-");
        write_decimal((-(n as i64)) as u64, text);
        proof {
            assert(old(text)@ + seq!['-'] + decimal((-n) as nat) =~= old(text)@ + signed_decimal(
                n as int,
            ));
        }
    } else {
        write_decimal(n as u64, text);
    }
}

/// Appends the text of a node to a text.
pub fn write_node<T: Board>(node: &MctsNode<T>, text: &mut String)
    ensures
        final(text)@ == old(text)@ + node_text(*node),
{
    proof {
        reveal_strlit("(");
        reveal_strlit(")");
    }
    let outcome: i32 = match node.outcome {
        GameOutcome::InProgress => 0,
        GameOutcome::Win => 1,
        GameOutcome::Lose => 2,
        GameOutcome::Draw => 3,
    };
    let flag: i32 = if node.is_fully_calculated {
        1
    } else {
        0
    };
    let fields: [i32; 7] = [
        node.id,
        node.height,
        node.wins,
        node.draws,
        node.visits,
        outcome,
        flag,
    ];
    let ghost numbers = node_fields(*node);
    let ghost start = text@;
    text.append("(");
    let mut k: usize = 0;
    while k < 7
        invariant
            0 <= k <= 7,
            numbers.len() == 7,
            forall|j: int| 0 <= j < 7 ==> fields@[j] == #[trigger] numbers[j],
            text@ == start + seq!['('] + joined(numbers, k as nat),
        decreases 7 - k,
    {
        proof {
            reveal_strlit(",");
        }
        if k > 0 {
            text.append(",");
        }
        write_signed(fields[k], text);
        proof {
            assert(fields@[k as int] == numbers[k as int]);
            let before = joined(numbers, k as nat);
            let after = joined(numbers, (k + 1) as nat);
            if k == 0 {
                assert(before =~= Seq::<char>::empty());
                assert(after == signed_decimal(numbers[0]));
            } else {
                assert(after == before + seq![','] + signed_decimal(numbers[k as int]));
            }
            assert(text@ =~= start + seq!['('] + after);
        }
        k += 1;
    }
    text.append(")");
    proof {
        assert(text@ =~= start + node_text(*node));
    }
}

impl<T: Board> SearchTree<T> {
    /// The text of node `i` and of everything below it: the text of the
    /// node, followed by the texts of its children's subtrees in the order
    /// of the children.
    pub open spec fn subtree_text(&self, i: int) -> Seq<char>
        decreases self.size() - i, 1nat, 0nat,
    {
        if 0 <= i < self.size() {
            node_text(self.node(i)) + self.children_text(i, self.children_of(i).len())
        } else {
            Seq::empty()
        }
    }

    /// The texts of the subtrees of the first `k` children of node `i`, one
    /// after the other.
    pub open spec fn children_text(&self, i: int, k: nat) -> Seq<char>
        decreases self.size() - i, 0nat, k,
    {
        if k == 0 || !(0 <= i < self.size()) {
            Seq::empty()
        } else {
            let c = self.children_of(i)[k - 1];
            self.children_text(i, (k - 1) as nat) + if i < c < self.size() {
                self.subtree_text(c)
            } else {
                Seq::empty()
            }
        }
    }

    /// Appends the text of node `i` and of everything below it to a text.
    pub fn write_subtree(&self, i: usize, text: &mut String)
        requires
            self.shaped(),
            i < self.size(),
        ensures
            final(text)@ == old(text)@ + self.subtree_text(i as int),
        decreases self.size() - i,
    {
        write_node(self.get(i), text);
        let kids = self.children(i);
        let ghost start = text@;
        let mut k: usize = 0;
        while k < kids.len()
            invariant
                self.shaped(),
                i < self.size(),
                same_ids(kids@, self.children_of(i as int)),
                0 <= k <= kids@.len(),
                start == old(text)@ + node_text(self.node(i as int)),
                text@ == start + self.children_text(i as int, k as nat),
            decreases kids@.len() - k,
        {
            proof {
                assert(i < self.children_of(i as int)[k as int] < self.size());
            }
            let ghost earlier = text@;
            self.write_subtree(kids[k], text);
            proof {
                assert(text@ =~= start + self.children_text(i as int, (k + 1) as nat));
            }
            k += 1;
        }
        proof {
            assert(text@ =~= old(text)@ + self.subtree_text(i as int));
        }
    }

    /// Returns the text of the whole tree.
    pub fn to_text(&self) -> (text: String)
        requires
            self.shaped(),
        ensures
            text@ == self.subtree_text(0),
    {
        let mut text = String::new();
        self.write_subtree(0, &mut text);
        proof {
            assert(Seq::<char>::empty() + self.subtree_text(0) =~= self.subtree_text(0));
        }
        text
    }

    /// Returns the fingerprint of the whole tree: the hash of its text, in
    /// 32 lower-case hexadecimal digits.
    pub fn tree_fingerprint(&self) -> (print: String)
        requires
            self.shaped(),
        ensures
            exists|hash: u128| print@ == hex_of(#[trigger] spec_u128_to_le_bytes(hash)),
    {
        let text = self.to_text();
        MurMurHasher::hash(text.as_str())
    }
}

} // verus!
