//! Errors in words.
use vstd::prelude::*;
use vstd::string::StringExecFns;
use crate::batched_open::BatchedOpenError;
use crate::compact_fri::CompactFriError;
use crate::merkle::MerkleBatchError;
use crate::mixed_open::MixedOpenError;
use crate::source_binding::SourceBindingError;

verus! {

/// What can be put in words.
pub trait Described {
    /// The words.
    spec fn text(&self) -> Seq<char>;

    /// Computes [`Described::text`].
    fn message(&self) -> (s: String)
        ensures
            s@ == self.text(),
    ;
}

impl Described for () {
    open spec fn text(&self) -> Seq<char> {
        Seq::empty()
    }

    fn message(&self) -> (s: String) {
        String::new()
    }
}

/// A digit.
pub open spec fn digit(d: nat) -> Seq<char> {
    if d == 0 {
        "0"@
    } else if d == 1 {
        "1"@
    } else if d == 2 {
        "2"@
    } else if d == 3 {
        "3"@
    } else if d == 4 {
        "4"@
    } else if d == 5 {
        "5"@
    } else if d == 6 {
        "6"@
    } else if d == 7 {
        "7"@
    } else if d == 8 {
        "8"@
    } else {
        "9"@
    }
}

/// A number in decimal digits.
pub open spec fn decimal(n: nat) -> Seq<char>
    decreases n,
{
    if n < 10 {
        digit(n)
    } else {
        decimal(n / 10) + digit(n % 10)
    }
}

/// The number that decimal digits stand for, the highest first.
pub open spec fn decimal_value(s: Seq<char>) -> int
    decreases s.len(),
{
    if s.len() == 0 {
        0
    } else {
        10 * decimal_value(s.drop_last()) + (s.last() as int - '0' as int)
    }
}

proof fn lemma_digit(d: nat)
    requires
        d < 10,
    ensures
        digit(d).len() == 1,
        digit(d)[0] as int == '0' as int + d,
{
    reveal_strlit("0");
    reveal_strlit("1");
    reveal_strlit("2");
    reveal_strlit("3");
    reveal_strlit("4");
    reveal_strlit("5");
    reveal_strlit("6");
    reveal_strlit("7");
    reveal_strlit("8");
    reveal_strlit("9");
}

/// The decimal digits of a number stand for it, and only zero starts with one.
pub proof fn lemma_decimal(n: nat)
    ensures
        decimal_value(decimal(n)) == n,
        decimal(n).len() > 0,
        forall|i: int| 0 <= i < decimal(n).len() ==> '0' <= #[trigger] decimal(n)[i] <= '9',
        n > 0 ==> decimal(n)[0] != '0',
    decreases n,
{
    let s = decimal(n);
    if n < 10 {
        lemma_digit(n);
        assert(s.drop_last() =~= Seq::empty());
        assert(decimal_value(s.drop_last()) == 0);
    } else {
        lemma_decimal(n / 10);
        lemma_digit(n % 10);
        assert(s.drop_last() =~= decimal(n / 10));
    }
}

/// Appends a digit.
fn push_digit(s: &mut String, d: u128)
    requires
        d < 10,
    ensures
        final(s)@ == old(s)@ + digit(d as nat),
{
    let word: &str = match d {
        0 => "0",
        1 => "1",
        2 => "2",
        3 => "3",
        4 => "4",
        5 => "5",
        6 => "6",
        7 => "7",
        8 => "8",
        _ => "9",
    };
    s.append(word);
}

/// Appends a number.
fn push_decimal(s: &mut String, n: u128)
    ensures
        final(s)@ == old(s)@ + decimal(n as nat),
    decreases n,
{
    if n < 10 {
        push_digit(s, n);
    } else {
        push_decimal(s, n / 10);
        push_digit(s, n % 10);
        proof {
            assert(s@ =~= old(s)@ + decimal(n as nat));
        }
    }
}

impl Described for MerkleBatchError {
    open spec fn text(&self) -> Seq<char> {
        match *self {
            MerkleBatchError::CountMismatch => "leaf index/hash count mismatch"@,
            MerkleBatchError::InconsistentLeaf { index } => "inconsistent leaf hashes for index "@ + decimal(index as nat),
            MerkleBatchError::InsufficientSiblings { layer } => "insufficient siblings at layer "@ + decimal(layer as nat),
            MerkleBatchError::MissingRoot => "failed to compute root"@,
            MerkleBatchError::RootMismatch => "batched Merkle root mismatch"@,
            MerkleBatchError::UnusedSiblings { consumed, total } => "unused siblings: consumed "@ + decimal(consumed as nat) + ", total "@ + decimal(total as nat),
        }
    }

    fn message(&self) -> (s: String) {
        match self {
            MerkleBatchError::CountMismatch => {
                let mut s = String::new();
                s.append("leaf index/hash count mismatch");
                proof {
                    assert(s@ =~= self.text());
                }
                s
            },
            MerkleBatchError::InconsistentLeaf { index } => {
                let mut s = String::new();
                s.append("inconsistent leaf hashes for index ");
                push_decimal(&mut s, *index as u128);
                proof {
                    assert(s@ =~= self.text());
                }
                s
            },
            MerkleBatchError::InsufficientSiblings { layer } => {
                let mut s = String::new();
                s.append("insufficient siblings at layer ");
                push_decimal(&mut s, *layer as u128);
                proof {
                    assert(s@ =~= self.text());
                }
                s
            },
            MerkleBatchError::MissingRoot => {
                let mut s = String::new();
                s.append("failed to compute root");
                proof {
                    assert(s@ =~= self.text());
                }
                s
            },
            MerkleBatchError::RootMismatch => {
                let mut s = String::new();
                s.append("batched Merkle root mismatch");
                proof {
                    assert(s@ =~= self.text());
                }
                s
            },
            MerkleBatchError::UnusedSiblings { consumed, total } => {
                let mut s = String::new();
                s.append("unused siblings: consumed ");
                push_decimal(&mut s, *consumed as u128);
                s.append(", total ");
                push_decimal(&mut s, *total as u128);
                proof {
                    assert(s@ =~= self.text());
                }
                s
            },
        }
    }
}

/// The words for a refused proof against the root of encoded columns.
pub open spec fn source_text(e: MerkleBatchError) -> Seq<char> {
    match e {
        MerkleBatchError::CountMismatch => "source leaf index/hash count mismatch"@,
        MerkleBatchError::InconsistentLeaf { index } => "inconsistent source leaf hashes for index "@ + decimal(index as nat),
        MerkleBatchError::InsufficientSiblings { layer } => "insufficient source siblings at layer "@ + decimal(layer as nat),
        MerkleBatchError::MissingRoot => "failed to compute source root"@,
        MerkleBatchError::RootMismatch => "source batched Merkle root mismatch"@,
        MerkleBatchError::UnusedSiblings { consumed, total } => "unused source siblings: consumed "@ + decimal(consumed as nat) + ", total "@ + decimal(total as nat),
    }
}

/// Computes [`source_text`].
pub fn source_message(e: &MerkleBatchError) -> (s: String)
    ensures
        s@ == source_text(*e),
{
    match e {
        MerkleBatchError::CountMismatch => {
            let mut s = String::new();
            s.append("source leaf index/hash count mismatch");
            proof {
                assert(s@ =~= source_text(*e));
            }
            s
        },
        MerkleBatchError::InconsistentLeaf { index } => {
            let mut s = String::new();
            s.append("inconsistent source leaf hashes for index ");
            push_decimal(&mut s, *index as u128);
            proof {
                assert(s@ =~= source_text(*e));
            }
            s
        },
        MerkleBatchError::InsufficientSiblings { layer } => {
            let mut s = String::new();
            s.append("insufficient source siblings at layer ");
            push_decimal(&mut s, *layer as u128);
            proof {
                assert(s@ =~= source_text(*e));
            }
            s
        },
        MerkleBatchError::MissingRoot => {
            let mut s = String::new();
            s.append("failed to compute source root");
            proof {
                assert(s@ =~= source_text(*e));
            }
            s
        },
        MerkleBatchError::RootMismatch => {
            let mut s = String::new();
            s.append("source batched Merkle root mismatch");
            proof {
                assert(s@ =~= source_text(*e));
            }
            s
        },
        MerkleBatchError::UnusedSiblings { consumed, total } => {
            let mut s = String::new();
            s.append("unused source siblings: consumed ");
            push_decimal(&mut s, *consumed as u128);
            s.append(", total ");
            push_decimal(&mut s, *total as u128);
            proof {
                assert(s@ =~= source_text(*e));
            }
            s
        },
    }
}

impl<E: Described> Described for CompactFriError<E> {
    open spec fn text(&self) -> Seq<char> {
        match *self {
            CompactFriError::UpperLength { expected, got } => "upper_partial_evals length mismatch: expected "@ + decimal(expected as nat) + ", got "@ + decimal(got as nat),
            CompactFriError::EvalMismatch => "derived eval does not match claimed eval"@,
            CompactFriError::RoundCount => "round count mismatch"@,
            CompactFriError::Sumcheck { round } => "sumcheck failed at round "@ + decimal(round as nat),
            CompactFriError::EmptyFinalCodeword => "empty final codeword"@,
            CompactFriError::Hook(e) => e.text(),
            CompactFriError::SymbolCount { round } => "symbol count mismatch at round "@ + decimal(round as nat),
            CompactFriError::SymbolMismatch { query, round } => "symbol inconsistency at query "@ + decimal(query as nat) + " round "@ + decimal(round as nat),
            CompactFriError::Merkle(e) => e.text(),
            CompactFriError::FinalMismatch { query } => "final codeword mismatch at query "@ + decimal(query as nat),
        }
    }

    fn message(&self) -> (s: String) {
        match self {
            CompactFriError::UpperLength { expected, got } => {
                let mut s = String::new();
                s.append("upper_partial_evals length mismatch: expected ");
                push_decimal(&mut s, *expected as u128);
                s.append(", got ");
                push_decimal(&mut s, *got as u128);
                proof {
                    assert(s@ =~= self.text());
                }
                s
            },
            CompactFriError::EvalMismatch => {
                let mut s = String::new();
                s.append("derived eval does not match claimed eval");
                proof {
                    assert(s@ =~= self.text());
                }
                s
            },
            CompactFriError::RoundCount => {
                let mut s = String::new();
                s.append("round count mismatch");
                proof {
                    assert(s@ =~= self.text());
                }
                s
            },
            CompactFriError::Sumcheck { round } => {
                let mut s = String::new();
                s.append("sumcheck failed at round ");
                push_decimal(&mut s, *round as u128);
                proof {
                    assert(s@ =~= self.text());
                }
                s
            },
            CompactFriError::EmptyFinalCodeword => {
                let mut s = String::new();
                s.append("empty final codeword");
                proof {
                    assert(s@ =~= self.text());
                }
                s
            },
            CompactFriError::Hook(e) => {
                let mut s = String::new();
                let inner = e.message();
                s.append(inner.as_str());
                proof {
                    assert(s@ =~= self.text());
                }
                s
            },
            CompactFriError::SymbolCount { round } => {
                let mut s = String::new();
                s.append("symbol count mismatch at round ");
                push_decimal(&mut s, *round as u128);
                proof {
                    assert(s@ =~= self.text());
                }
                s
            },
            CompactFriError::SymbolMismatch { query, round } => {
                let mut s = String::new();
                s.append("symbol inconsistency at query ");
                push_decimal(&mut s, *query as u128);
                s.append(" round ");
                push_decimal(&mut s, *round as u128);
                proof {
                    assert(s@ =~= self.text());
                }
                s
            },
            CompactFriError::Merkle(e) => {
                let mut s = String::new();
                let inner = e.message();
                s.append(inner.as_str());
                proof {
                    assert(s@ =~= self.text());
                }
                s
            },
            CompactFriError::FinalMismatch { query } => {
                let mut s = String::new();
                s.append("final codeword mismatch at query ");
                push_decimal(&mut s, *query as u128);
                proof {
                    assert(s@ =~= self.text());
                }
                s
            },
        }
    }
}

impl Described for SourceBindingError {
    open spec fn text(&self) -> Seq<char> {
        match *self {
            SourceBindingError::PointDimension => "source binding point dimension mismatch"@,
            SourceBindingError::ContextDimension => "source binding compact context dimension mismatch"@,
            SourceBindingError::HLength { expected, got } => "source binding H length mismatch: expected "@ + decimal(expected as nat) + ", got "@ + decimal(got as nat),
            SourceBindingError::RoundCount => "source binding high-fold round count mismatch"@,
            SourceBindingError::HClaim => "source binding H(right) does not match compact tensor claim"@,
            SourceBindingError::FinalCodeword => "source binding Code(H) final codeword mismatch"@,
            SourceBindingError::RoundZeroRoot => "source binding Code(H*eq_right) root does not match compact FRI round-0 root"@,
            SourceBindingError::SourceSymbolLength { expected, got } => "source binding source symbol length mismatch: expected "@ + decimal(expected as nat) + ", got "@ + decimal(got as nat),
            SourceBindingError::MissingSourceRoot => "missing short source root in interleaved commitment"@,
            SourceBindingError::Merkle(e) => source_text(e),
            SourceBindingError::SymbolCount { layer, expected, got } => "source binding symbol count mismatch at high layer "@ + decimal(layer as nat) + ": expected "@ + decimal(expected as nat) + ", got "@ + decimal(got as nat),
            SourceBindingError::PathInconsistency { query, layer } => "source binding high-fold path inconsistency at query "@ + decimal(query as nat) + " layer "@ + decimal(layer as nat),
            SourceBindingError::HCodeMismatch { query, got, expected } => "source binding H-code mismatch at query "@ + decimal(query as nat) + ": got "@ + decimal(got as nat) + " expected "@ + decimal(expected as nat),
        }
    }

    fn message(&self) -> (s: String) {
        match self {
            SourceBindingError::PointDimension => {
                let mut s = String::new();
                s.append("source binding point dimension mismatch");
                proof {
                    assert(s@ =~= self.text());
                }
                s
            },
            SourceBindingError::ContextDimension => {
                let mut s = String::new();
                s.append("source binding compact context dimension mismatch");
                proof {
                    assert(s@ =~= self.text());
                }
                s
            },
            SourceBindingError::HLength { expected, got } => {
                let mut s = String::new();
                s.append("source binding H length mismatch: expected ");
                push_decimal(&mut s, *expected as u128);
                s.append(", got ");
                push_decimal(&mut s, *got as u128);
                proof {
                    assert(s@ =~= self.text());
                }
                s
            },
            SourceBindingError::RoundCount => {
                let mut s = String::new();
                s.append("source binding high-fold round count mismatch");
                proof {
                    assert(s@ =~= self.text());
                }
                s
            },
            SourceBindingError::HClaim => {
                let mut s = String::new();
                s.append("source binding H(right) does not match compact tensor claim");
                proof {
                    assert(s@ =~= self.text());
                }
                s
            },
            SourceBindingError::FinalCodeword => {
                let mut s = String::new();
                s.append("source binding Code(H) final codeword mismatch");
                proof {
                    assert(s@ =~= self.text());
                }
                s
            },
            SourceBindingError::RoundZeroRoot => {
                let mut s = String::new();
                s.append("source binding Code(H*eq_right) root does not match compact FRI round-0 root");
                proof {
                    assert(s@ =~= self.text());
                }
                s
            },
            SourceBindingError::SourceSymbolLength { expected, got } => {
                let mut s = String::new();
                s.append("source binding source symbol length mismatch: expected ");
                push_decimal(&mut s, *expected as u128);
                s.append(", got ");
                push_decimal(&mut s, *got as u128);
                proof {
                    assert(s@ =~= self.text());
                }
                s
            },
            SourceBindingError::MissingSourceRoot => {
                let mut s = String::new();
                s.append("missing short source root in interleaved commitment");
                proof {
                    assert(s@ =~= self.text());
                }
                s
            },
            SourceBindingError::Merkle(e) => source_message(e),
            SourceBindingError::SymbolCount { layer, expected, got } => {
                let mut s = String::new();
                s.append("source binding symbol count mismatch at high layer ");
                push_decimal(&mut s, *layer as u128);
                s.append(": expected ");
                push_decimal(&mut s, *expected as u128);
                s.append(", got ");
                push_decimal(&mut s, *got as u128);
                proof {
                    assert(s@ =~= self.text());
                }
                s
            },
            SourceBindingError::PathInconsistency { query, layer } => {
                let mut s = String::new();
                s.append("source binding high-fold path inconsistency at query ");
                push_decimal(&mut s, *query as u128);
                s.append(" layer ");
                push_decimal(&mut s, *layer as u128);
                proof {
                    assert(s@ =~= self.text());
                }
                s
            },
            SourceBindingError::HCodeMismatch { query, got, expected } => {
                let mut s = String::new();
                s.append("source binding H-code mismatch at query ");
                push_decimal(&mut s, *query as u128);
                s.append(": got ");
                push_decimal(&mut s, *got);
                s.append(" expected ");
                push_decimal(&mut s, *expected);
                proof {
                    assert(s@ =~= self.text());
                }
                s
            },
        }
    }
}

impl Described for MixedOpenError {
    open spec fn text(&self) -> Seq<char> {
        match *self {
            MixedOpenError::OpeningCount => "Opening count mismatch"@,
            MixedOpenError::PointDimension => "Eval point dimension mismatch"@,
            MixedOpenError::ColumnOutOfRange { index: _, col_index, n_cols } => "Secondary claim column out of range: col_index="@ + decimal(col_index as nat) + " n_cols="@ + decimal(n_cols as nat),
            MixedOpenError::ClaimPointDimension { index, expected, got } => "Secondary claim eval point dimension mismatch at index "@ + decimal(index as nat) + ": expected "@ + decimal(expected as nat) + ", got "@ + decimal(got as nat),
            MixedOpenError::ClaimValueMismatch { index, opening, claim } => "Secondary claim value mismatch at index "@ + decimal(index as nat) + ": opening "@ + decimal(opening as nat) + " != claim "@ + decimal(claim as nat),
            MixedOpenError::Fri(e) => e.text(),
        }
    }

    fn message(&self) -> (s: String) {
        match self {
            MixedOpenError::OpeningCount => {
                let mut s = String::new();
                s.append("Opening count mismatch");
                proof {
                    assert(s@ =~= self.text());
                }
                s
            },
            MixedOpenError::PointDimension => {
                let mut s = String::new();
                s.append("Eval point dimension mismatch");
                proof {
                    assert(s@ =~= self.text());
                }
                s
            },
            MixedOpenError::ColumnOutOfRange { index: _, col_index, n_cols } => {
                let mut s = String::new();
                s.append("Secondary claim column out of range: col_index=");
                push_decimal(&mut s, *col_index as u128);
                s.append(" n_cols=");
                push_decimal(&mut s, *n_cols as u128);
                proof {
                    assert(s@ =~= self.text());
                }
                s
            },
            MixedOpenError::ClaimPointDimension { index, expected, got } => {
                let mut s = String::new();
                s.append("Secondary claim eval point dimension mismatch at index ");
                push_decimal(&mut s, *index as u128);
                s.append(": expected ");
                push_decimal(&mut s, *expected as u128);
                s.append(", got ");
                push_decimal(&mut s, *got as u128);
                proof {
                    assert(s@ =~= self.text());
                }
                s
            },
            MixedOpenError::ClaimValueMismatch { index, opening, claim } => {
                let mut s = String::new();
                s.append("Secondary claim value mismatch at index ");
                push_decimal(&mut s, *index as u128);
                s.append(": opening ");
                push_decimal(&mut s, *opening);
                s.append(" != claim ");
                push_decimal(&mut s, *claim);
                proof {
                    assert(s@ =~= self.text());
                }
                s
            },
            MixedOpenError::Fri(e) => {
                let mut s = String::new();
                let inner = e.message();
                s.append(inner.as_str());
                proof {
                    assert(s@ =~= self.text());
                }
                s
            },
        }
    }
}

impl<E: Described> Described for BatchedOpenError<E> {
    open spec fn text(&self) -> Seq<char> {
        match *self {
            BatchedOpenError::ColumnCount => "Column opening count mismatch"@,
            BatchedOpenError::RoundCount => "Sumcheck round count mismatch"@,
            BatchedOpenError::PointDimension => "Eval point dimension mismatch"@,
            BatchedOpenError::Sumcheck { round } => "Sumcheck check failed at round "@ + decimal(round as nat),
            BatchedOpenError::TerminalClaim => "Terminal claim mismatch"@,
            BatchedOpenError::Fri(e) => e.text(),
        }
    }

    fn message(&self) -> (s: String) {
        match self {
            BatchedOpenError::ColumnCount => {
                let mut s = String::new();
                s.append("Column opening count mismatch");
                proof {
                    assert(s@ =~= self.text());
                }
                s
            },
            BatchedOpenError::RoundCount => {
                let mut s = String::new();
                s.append("Sumcheck round count mismatch");
                proof {
                    assert(s@ =~= self.text());
                }
                s
            },
            BatchedOpenError::PointDimension => {
                let mut s = String::new();
                s.append("Eval point dimension mismatch");
                proof {
                    assert(s@ =~= self.text());
                }
                s
            },
            BatchedOpenError::Sumcheck { round } => {
                let mut s = String::new();
                s.append("Sumcheck check failed at round ");
                push_decimal(&mut s, *round as u128);
                proof {
                    assert(s@ =~= self.text());
                }
                s
            },
            BatchedOpenError::TerminalClaim => {
                let mut s = String::new();
                s.append("Terminal claim mismatch");
                proof {
                    assert(s@ =~= self.text());
                }
                s
            },
            BatchedOpenError::Fri(e) => {
                let mut s = String::new();
                let inner = e.message();
                s.append(inner.as_str());
                proof {
                    assert(s@ =~= self.text());
                }
                s
            },
        }
    }
}

} // verus!
