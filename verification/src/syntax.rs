//! From source text to operations, and the bracket discipline of both.
use vstd::prelude::*;
use crate::opcode::OpCode;

verus! {

/// The number of occurrences of `x` in `s`.
pub open spec fn count<T>(s: Seq<T>, x: T) -> nat
    decreases s.len(),
{
    if s.len() == 0 {
        0
    } else {
        count(s.drop_last(), x) + if s.last() == x {
            1nat
        } else {
            0nat
        }
    }
}

/// `s` holds as many `closer` as `opener`, and no prefix of it holds more
/// `closer` than `opener`.
pub open spec fn balanced<T>(s: Seq<T>, opener: T, closer: T) -> bool {
    &&& count(s, opener) == count(s, closer)
    &&& forall|k: int|
        0 <= k <= s.len() ==> count(#[trigger] s.take(k), closer) <= count(s.take(k), opener)
}

/// The bracket discipline of source text: every `]` closes an earlier `[`,
/// and every `[` is closed.
pub open spec fn well_bracketed(text: Seq<char>) -> bool {
    balanced(text, '[', ']')
}

/// The bracket discipline of an operation sequence.
pub open spec fn well_nested(ops: Seq<OpCode>) -> bool {
    balanced(ops, OpCode::LoopHead, OpCode::LoopEnd)
}

/// The operations a source text denotes: one per recognised character, in
/// order; every other character is dropped.
pub open spec fn lex(text: Seq<char>) -> Seq<OpCode>
    decreases text.len(),
{
    if text.len() == 0 {
        Seq::empty()
    } else {
        match OpCode::of_char(text.last()) {
            Some(op) => lex(text.drop_last()).push(op),
            None => lex(text.drop_last()),
        }
    }
}

/// Scans source text into its operations.
pub fn scan(code: &str) -> (op_codes: Vec<OpCode>)
    ensures
        op_codes@ == lex(code@),
{
    let mut op_codes: Vec<OpCode> = Vec::new();
    for c in it: code.chars()
        invariant
            it.seq() == code@,
            op_codes@ == lex(code@.take(it.index())),
    {
        proof {
            let k = it.index();
            assert(code@.take(k + 1).drop_last() == code@.take(k));
        }
        match OpCode::parse(c) {
            Some(op) => {
                op_codes.push(op);
            },
            None => {},
        }
    }
    proof {
        assert(code@.take(code@.len() as int) == code@);
    }
    op_codes
}

/// Lexing keeps the brackets: the text holds as many `[` as its operations
/// hold loop heads, and as many `]` as they hold loop ends.
pub proof fn lemma_lex_counts(text: Seq<char>)
    ensures
        count(lex(text), OpCode::LoopHead) == count(text, '['),
        count(lex(text), OpCode::LoopEnd) == count(text, ']'),
    decreases text.len(),
{
    if text.len() > 0 {
        lemma_lex_counts(text.drop_last());
        match OpCode::of_char(text.last()) {
            Some(op) => {
                assert(lex(text).drop_last() == lex(text.drop_last()));
            },
            None => {},
        }
    }
}

/// The operations of a prefix of the text are a prefix of the operations of
/// the text.
pub proof fn lemma_lex_prefix(text: Seq<char>, k: int)
    requires
        0 <= k <= text.len(),
    ensures
        lex(text.take(k)).len() <= lex(text).len(),
        lex(text).take(lex(text.take(k)).len() as int) == lex(text.take(k)),
    decreases text.len(),
{
    if k == text.len() {
        assert(text.take(k) == text);
    } else {
        let shorter = text.drop_last();
        assert(text.take(k) == shorter.take(k));
        lemma_lex_prefix(shorter, k);
    }
}

/// Every prefix of the operations of a text is made of the operations of
/// some prefix of the text.
pub proof fn lemma_lex_cover(text: Seq<char>, m: int) -> (k: int)
    requires
        0 <= m <= lex(text).len(),
    ensures
        0 <= k <= text.len(),
        lex(text.take(k)) == lex(text).take(m),
    decreases text.len(),
{
    if m == lex(text).len() {
        assert(text.take(text.len() as int) == text);
        text.len() as int
    } else {
        let shorter = text.drop_last();
        let k = lemma_lex_cover(shorter, m);
        assert(text.take(k) == shorter.take(k));
        k
    }
}

/// A text obeys the bracket discipline exactly when its operations do.
pub proof fn lemma_lex_balance(text: Seq<char>)
    ensures
        well_bracketed(text) <==> well_nested(lex(text)),
{
    let ops = lex(text);
    lemma_lex_counts(text);
    if well_bracketed(text) {
        assert forall|m: int| 0 <= m <= ops.len() implies count(
            #[trigger] ops.take(m),
            OpCode::LoopEnd,
        ) <= count(ops.take(m), OpCode::LoopHead) by {
            let k = lemma_lex_cover(text, m);
            lemma_lex_counts(text.take(k));
        }
    }
    if well_nested(ops) {
        assert forall|k: int| 0 <= k <= text.len() implies count(#[trigger] text.take(k), ']')
            <= count(text.take(k), '[') by {
            lemma_lex_prefix(text, k);
            lemma_lex_counts(text.take(k));
            let m = lex(text.take(k)).len() as int;
            assert(ops.take(m) == lex(text.take(k)));
        }
    }
}

/// A sequence in which `x` does not occur holds it zero times.
pub proof fn lemma_count_absent<T>(s: Seq<T>, x: T)
    requires
        forall|i: int| 0 <= i < s.len() ==> #[trigger] s[i] != x,
    ensures
        count(s, x) == 0,
    decreases s.len(),
{
    if s.len() > 0 {
        lemma_count_absent(s.drop_last(), x);
    }
}

/// Text without any bracket character obeys the bracket discipline,
/// whatever else it holds.
pub proof fn lemma_bracket_free_is_well_bracketed(text: Seq<char>)
    requires
        forall|i: int| 0 <= i < text.len() ==> #[trigger] text[i] != '[' && text[i] != ']',
    ensures
        well_bracketed(text),
{
    lemma_count_absent(text, '[');
    lemma_count_absent(text, ']');
    assert forall|k: int| 0 <= k <= text.len() implies count(#[trigger] text.take(k), ']')
        <= count(text.take(k), '[') by {
        lemma_count_absent(text.take(k), ']');
    }
}

} // verus!
