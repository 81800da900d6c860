//! The instruction tree produced by the parser, and its mathematical model.
use vstd::prelude::*;

verus! {

/// One node of the IR. `Loop` owns its body, so the whole result is a forest.
#[derive(PartialEq, Eq, Debug)]
pub enum Instruction {
    Increment(i32),
    PointerIncrement(i32),
    Read,
    Write,
    Loop(Vec<Instruction>),
}

/// The model of an [`Instruction`]: the same tree with deltas as integers and
/// loop bodies as sequences.
pub enum Op {
    Increment(int),
    PointerIncrement(int),
    Read,
    Write,
    Loop(Seq<Op>),
}

impl Instruction {
    /// The model of this node.
    pub open spec fn view(self) -> Op
        decreases self,
    {
        match self {
            Instruction::Increment(d) => Op::Increment(d as int),
            Instruction::PointerIncrement(d) => Op::PointerIncrement(d as int),
            Instruction::Read => Op::Read,
            Instruction::Write => Op::Write,
            Instruction::Loop(body) => Op::Loop(
                Seq::new(
                    body@.len(),
                    |k: int|
                        if 0 <= k < body@.len() {
                            body@[k].view()
                        } else {
                            Op::Read
                        },
                ),
            ),
        }
    }
}

impl Clone for Instruction {
    /// A deep copy: the copy has the same model.
    fn clone(&self) -> (r: Self)
        ensures
            r@ == self@,
        decreases self,
    {
        match self {
            Instruction::Increment(d) => Instruction::Increment(*d),
            Instruction::PointerIncrement(d) => Instruction::PointerIncrement(*d),
            Instruction::Read => Instruction::Read,
            Instruction::Write => Instruction::Write,
            Instruction::Loop(body) => {
                let mut copy: Vec<Instruction> = Vec::new();
                let mut k: usize = 0;
                while k < body.len()
                    invariant
                        *self == Instruction::Loop(*body),
                        k <= body@.len(),
                        copy@.len() == k,
                        forall|j: int| 0 <= j < k ==> #[trigger] copy@[j]@ == body@[j]@,
                    decreases body@.len() - k,
                {
                    proof {
                        assert(decreases_to!(*self => (*self)->Loop_0));
                        assert(decreases_to!(*self => body@[k as int]));
                    }
                    let item = body[k].clone();
                    copy.push(item);
                    k = k + 1;
                }
                let r = Instruction::Loop(copy);
                proof {
                    lemma_loop_view(copy);
                    lemma_loop_view(*body);
                    assert(ops(copy@) =~= ops(body@));
                }
                r
            },
        }
    }
}

/// The model of a sequence of nodes, node by node.
pub open spec fn ops(instrs: Seq<Instruction>) -> Seq<Op> {
    instrs.map_values(|i: Instruction| i.view())
}

/// The model of a loop node is a loop over the model of its body.
pub proof fn lemma_loop_view(body: Vec<Instruction>)
    ensures
        Instruction::Loop(body)@ == Op::Loop(ops(body@)),
{
    assert(Instruction::Loop(body)@->Loop_0 =~= ops(body@));
}

} // verus!
