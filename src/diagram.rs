use vstd::prelude::*;

verus! {

/// How a command block fires.
#[derive(Clone, Copy, PartialEq, Eq, Debug)]
pub enum Mode {
    CommandBlockImpulse,
    CommandBlockRepeat,
    CommandBlockChain,
}

/// One command block of a chain.
#[derive(Debug)]
pub struct CommandBlock {
    pub mode: Mode,
    pub command: String,
    pub needs_redstone: bool,
    pub conditional: bool,
    pub name: String,
    pub execute_on_first_tick: bool,
    pub tick_delay: i32,
    pub should_track_output: bool,
}

/// A cell of a chain: a command block, or nothing.
pub type Node = Option<CommandBlock>;

/// One row of a diagram.
#[derive(Debug)]
pub struct Component {
    pub chains: Vec<Node>,
    pub height: i16,
}

/// Rows of command blocks.
#[derive(Debug)]
pub struct Diagram {
    pub unit: Vec<Component>,
}

/// A cell as text: its command in braces, or empty braces.
pub open spec fn node_text(n: Node) -> Seq<char> {
    match n {
        Some(cb) => seq!['{'] + cb.command@ + seq!['}'],
        None => seq!['{', '}'],
    }
}

/// The cells of a row as text, one after the other.
pub open spec fn row_text(ns: Seq<Node>) -> Seq<char>
    decreases ns.len(),
{
    if ns.len() == 0 {
        seq![]
    } else {
        row_text(ns.drop_last()) + node_text(ns.last())
    }
}

/// The rows of a diagram as text, each ended by a newline.
pub open spec fn diagram_text(rows: Seq<Component>) -> Seq<char>
    decreases rows.len(),
{
    if rows.len() == 0 {
        seq![]
    } else {
        diagram_text(rows.drop_last()) + row_text(rows.last().chains@) + seq!['\n']
    }
}

impl CommandBlock {
    /// The block as text: its command in braces.
    pub fn to_text(&self) -> (r: String)
        ensures
            r@ == node_text(Some(*self)),
    {
        proof {
            reveal_strlit("{");
            reveal_strlit("}");
        }
        let mut s = String::from_str("{");
        s.append(self.command.as_str());
        s.append("}");
        s
    }
}

impl Diagram {
    /// The diagram as text: a line per row, a pair of braces per cell.
    pub fn to_text(&self) -> (r: String)
        ensures
            r@ == diagram_text(self.unit@),
    {
        proof {
            reveal_strlit("{}");
            reveal_strlit("\n");
            assert(self.unit@.take(0) =~= seq![]);
        }
        let mut out = String::new();
        let mut i: usize = 0;
        while i < self.unit.len()
            invariant
                i <= self.unit@.len(),
                out@ == diagram_text(self.unit@.take(i as int)),
            decreases self.unit@.len() - i,
        {
            let comp = &self.unit[i];
            let ghost row_start = out@;
            let mut j: usize = 0;
            proof {
                assert(comp.chains@.take(0) =~= seq![]);
                assert(out@ =~= row_start + row_text(comp.chains@.take(0)));
            }
            while j < comp.chains.len()
                invariant
                    j <= comp.chains@.len(),
                    out@ == row_start + row_text(comp.chains@.take(j as int)),
                decreases comp.chains@.len() - j,
            {
                let ghost before = out@;
                match &comp.chains[j] {
                    Some(cb) => {
                        let t = cb.to_text();
                        out.append(t.as_str());
                    },
                    None => {
                        proof {
                            reveal_strlit("{}");
                        }
                        out.append("{}");
                    },
                }
                proof {
                    let ns = comp.chains@.take(j + 1);
                    assert(ns.drop_last() =~= comp.chains@.take(j as int));
                    assert(ns.last() == comp.chains@[j as int]);
                    assert(out@ =~= row_start + row_text(ns));
                }
                j = j + 1;
            }
            proof {
                reveal_strlit("\n");
            }
            out.append("\n");
            proof {
                let rows = self.unit@.take(i + 1);
                assert(rows.drop_last() =~= self.unit@.take(i as int));
                assert(comp.chains@.take(comp.chains@.len() as int) =~= comp.chains@);
                assert(out@ =~= diagram_text(rows));
            }
            i = i + 1;
        }
        proof {
            assert(self.unit@.take(self.unit@.len() as int) =~= self.unit@);
        }
        out
    }
}

} // verus!
