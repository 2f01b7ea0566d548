//! Metal Shading Language generation for a genome's field expression. Each
//! genome becomes a fragment shader, because a fixed shader cannot express an
//! arbitrary expression tree and a CPU loop cannot fill a 5K screen at 60fps.

use crate::genome::{Expr, PARAM_COUNT};
use crate::motion::MOVER_COUNT;
use crate::text::{
    balanced, decimal, indexes_marked_below, lemma_balanced_append, lemma_decimal_digits,
    lemma_decimal_paren_free, lemma_decimal_reads_back, lemma_enclosed_balanced, digits_value, is_digit, lemma_marked_append, lemma_mentions_start,
    lemma_pair_text, lemma_paren_free_balanced, lemma_unmarked, lemma_wrap_text, mentions,
    paren_free, push_decimal, starts_without_digit, written_at,
};
use vstd::prelude::*;

verus! {

/// The MSL expression for a tree, over `x`, `y`, `radius`, `theta`, `time`,
/// the parameter array `p` and the per-mover `moverDistance`/`moverWindow`
/// values. Slot and mover indices wrap into the arrays the shader declares.
pub open spec fn emitted(expr: Expr) -> Seq<char>
    decreases expr,
{
    match expr {
        Expr::X => "x"@,
        Expr::Y => "y"@,
        Expr::Radius => "radius"@,
        Expr::Theta => "theta"@,
        Expr::Time => "(time * 0.03)"@,
        Expr::Param(slot) => "p["@ + decimal((slot % PARAM_COUNT) as nat) + "]"@,
        Expr::MoverDistance(mover) => "moverDistance"@ + decimal((mover % MOVER_COUNT) as nat),
        Expr::MoverWindow(mover) => "moverWindow"@ + decimal((mover % MOVER_COUNT) as nat),
        Expr::Sin(a) => "sin("@ + emitted(*a) + ")"@,
        Expr::Cos(a) => "cos("@ + emitted(*a) + ")"@,
        Expr::Neg(a) => "(-"@ + emitted(*a) + ")"@,
        Expr::Add(a, b) => "("@ + emitted(*a) + " + "@ + emitted(*b) + ")"@,
        Expr::Sub(a, b) => "("@ + emitted(*a) + " - "@ + emitted(*b) + ")"@,
        Expr::Mul(a, b) => "("@ + emitted(*a) + " * "@ + emitted(*b) + ")"@,
        Expr::Hypot(a, b) => "length(float2("@ + emitted(*a) + ", "@ + emitted(*b) + "))"@,
    }
}

fn emit_into(expr: &Expr, out: &mut String)
    ensures
        final(out)@ == old(out)@ + emitted(*expr),
    decreases expr,
{
    let ghost start = out@;
    match expr {
        Expr::X => out.append("x"),
        Expr::Y => out.append("y"),
        Expr::Radius => out.append("radius"),
        Expr::Theta => out.append("theta"),
        Expr::Time => out.append("(time * 0.03)"),
        Expr::Param(slot) => {
            out.append("p[");
            push_decimal(out, *slot % PARAM_COUNT);
            out.append("]");
        },
        Expr::MoverDistance(mover) => {
            out.append("moverDistance");
            push_decimal(out, *mover % MOVER_COUNT);
        },
        Expr::MoverWindow(mover) => {
            out.append("moverWindow");
            push_decimal(out, *mover % MOVER_COUNT);
        },
        Expr::Sin(a) => {
            out.append("sin(");
            emit_into(a, out);
            out.append(")");
        },
        Expr::Cos(a) => {
            out.append("cos(");
            emit_into(a, out);
            out.append(")");
        },
        Expr::Neg(a) => {
            out.append("(-");
            emit_into(a, out);
            out.append(")");
        },
        Expr::Add(a, b) => {
            out.append("(");
            emit_into(a, out);
            out.append(" + ");
            emit_into(b, out);
            out.append(")");
        },
        Expr::Sub(a, b) => {
            out.append("(");
            emit_into(a, out);
            out.append(" - ");
            emit_into(b, out);
            out.append(")");
        },
        Expr::Mul(a, b) => {
            out.append("(");
            emit_into(a, out);
            out.append(" * ");
            emit_into(b, out);
            out.append(")");
        },
        Expr::Hypot(a, b) => {
            out.append("length(float2(");
            emit_into(a, out);
            out.append(", ");
            emit_into(b, out);
            out.append("))");
        },
    }
    assert(out@ =~= start + emitted(*expr));
}

/// Emit the genome's field expression as an MSL expression over `x`, `y`,
/// `radius`, `theta`, `time` and the parameter array `p`.
pub fn emit(expr: &Expr) -> (source: String)
    ensures
        source@ == emitted(*expr),
{
    let mut source = String::new();
    emit_into(expr, &mut source);
    assert(source@ =~= emitted(*expr));
    source
}

/// The text of every mover wave reads both a mover distance and a mover
/// window: nothing measured from a mover reaches the shader unwindowed.
pub proof fn lemma_mover_wave_text(wave: Expr)
    requires
        wave.is_mover_wave(),
    ensures
        mentions(emitted(wave), "moverDistance"@),
        mentions(emitted(wave), "moverWindow"@),
{
    if let Expr::Mul(window, rings) = wave {
        if let Expr::MoverWindow(mover) = *window {
            let digits = decimal((mover % MOVER_COUNT) as nat);
            let window_text = emitted(*window);
            let rings_text = emitted(*rings);
            lemma_mentions_start("moverWindow"@, digits);
            lemma_pair_text("("@, window_text, " * "@, rings_text, ")"@, "moverWindow"@);
            if let Expr::Sin(argument) = *rings {
                if let Expr::Add(scaled, travel) = *argument {
                    if let Expr::Mul(frequency, distance) = *scaled {
                        let needle = "moverDistance"@;
                        lemma_mentions_start(needle, digits);
                        lemma_pair_text("("@, emitted(*frequency), " * "@, emitted(*distance), ")"@, needle);
                        lemma_pair_text("("@, emitted(*scaled), " + "@, emitted(*travel), ")"@, needle);
                        lemma_wrap_text("sin("@, emitted(*argument), ")"@, needle);
                        lemma_pair_text("("@, window_text, " * "@, rings_text, ")"@, needle);
                    }
                }
            }
        }
    }
}

/// The shader text that reads parameter `slot`.
pub open spec fn param_text(slot: nat) -> Seq<char> {
    "p["@ + decimal(slot) + "]"@
}

/// A tree that reads a parameter slot below `bound` compiles to text that
/// indexes `p` with such a slot.
pub proof fn lemma_param_text(expr: Expr, bound: nat)
    requires
        expr.reads_param_below(bound),
        bound <= PARAM_COUNT,
    ensures
        exists|slot: nat| slot < bound && #[trigger] mentions(emitted(expr), param_text(slot)),
    decreases expr,
{
    match expr {
        Expr::Param(slot) => {
            assert(slot % PARAM_COUNT == slot);
            lemma_mentions_start(param_text(slot as nat), Seq::empty());
            assert(param_text(slot as nat) + Seq::empty() =~= emitted(expr));
            assert(mentions(emitted(expr), param_text(slot as nat)));
        },
        Expr::Sin(a) => {
            lemma_param_text(*a, bound);
            let slot = choose|slot: nat| slot < bound && #[trigger] mentions(emitted(*a), param_text(slot));
            lemma_wrap_text("sin("@, emitted(*a), ")"@, param_text(slot));
            assert(mentions(emitted(expr), param_text(slot)));
        },
        Expr::Cos(a) => {
            lemma_param_text(*a, bound);
            let slot = choose|slot: nat| slot < bound && #[trigger] mentions(emitted(*a), param_text(slot));
            lemma_wrap_text("cos("@, emitted(*a), ")"@, param_text(slot));
            assert(mentions(emitted(expr), param_text(slot)));
        },
        Expr::Neg(a) => {
            lemma_param_text(*a, bound);
            let slot = choose|slot: nat| slot < bound && #[trigger] mentions(emitted(*a), param_text(slot));
            lemma_wrap_text("(-"@, emitted(*a), ")"@, param_text(slot));
            assert(mentions(emitted(expr), param_text(slot)));
        },
        Expr::Add(a, b) => {
            if a.reads_param_below(bound) {
                lemma_param_text(*a, bound);
                let slot = choose|slot: nat| slot < bound && #[trigger] mentions(emitted(*a), param_text(slot));
                lemma_pair_text("("@, emitted(*a), " + "@, emitted(*b), ")"@, param_text(slot));
                assert(mentions(emitted(expr), param_text(slot)));
            } else {
                lemma_param_text(*b, bound);
                let slot = choose|slot: nat| slot < bound && #[trigger] mentions(emitted(*b), param_text(slot));
                lemma_pair_text("("@, emitted(*a), " + "@, emitted(*b), ")"@, param_text(slot));
                assert(mentions(emitted(expr), param_text(slot)));
            }
        },
        Expr::Sub(a, b) => {
            if a.reads_param_below(bound) {
                lemma_param_text(*a, bound);
                let slot = choose|slot: nat| slot < bound && #[trigger] mentions(emitted(*a), param_text(slot));
                lemma_pair_text("("@, emitted(*a), " - "@, emitted(*b), ")"@, param_text(slot));
                assert(mentions(emitted(expr), param_text(slot)));
            } else {
                lemma_param_text(*b, bound);
                let slot = choose|slot: nat| slot < bound && #[trigger] mentions(emitted(*b), param_text(slot));
                lemma_pair_text("("@, emitted(*a), " - "@, emitted(*b), ")"@, param_text(slot));
                assert(mentions(emitted(expr), param_text(slot)));
            }
        },
        Expr::Mul(a, b) => {
            if a.reads_param_below(bound) {
                lemma_param_text(*a, bound);
                let slot = choose|slot: nat| slot < bound && #[trigger] mentions(emitted(*a), param_text(slot));
                lemma_pair_text("("@, emitted(*a), " * "@, emitted(*b), ")"@, param_text(slot));
                assert(mentions(emitted(expr), param_text(slot)));
            } else {
                lemma_param_text(*b, bound);
                let slot = choose|slot: nat| slot < bound && #[trigger] mentions(emitted(*b), param_text(slot));
                lemma_pair_text("("@, emitted(*a), " * "@, emitted(*b), ")"@, param_text(slot));
                assert(mentions(emitted(expr), param_text(slot)));
            }
        },
        Expr::Hypot(a, b) => {
            if a.reads_param_below(bound) {
                lemma_param_text(*a, bound);
                let slot = choose|slot: nat| slot < bound && #[trigger] mentions(emitted(*a), param_text(slot));
                lemma_pair_text("length(float2("@, emitted(*a), ", "@, emitted(*b), "))"@, param_text(slot));
                assert(mentions(emitted(expr), param_text(slot)));
            } else {
                lemma_param_text(*b, bound);
                let slot = choose|slot: nat| slot < bound && #[trigger] mentions(emitted(*b), param_text(slot));
                lemma_pair_text("length(float2("@, emitted(*a), ", "@, emitted(*b), "))"@, param_text(slot));
                assert(mentions(emitted(expr), param_text(slot)));
            }
        },
        _ => {},
    }
}

/// The shader text of every random field indexes `p` with a frequency slot,
/// one of the eight lowest, so the pattern always carries fine banding.
pub proof fn lemma_random_field_text(field: Expr)
    requires
        field.is_random_field(),
    ensures
        exists|slot: nat| slot < 8 && #[trigger] mentions(emitted(field), param_text(slot)),
{
    Expr::lemma_random_field_properties(field);
    lemma_param_text(field, 8);
}

/// The tree with every parameter slot and mover index wrapped into the
/// arrays the shader declares, as `emit` writes them.
pub open spec fn with_wrapped_indexes(expr: Expr) -> Expr
    decreases expr,
{
    match expr {
        Expr::Param(slot) => Expr::Param(slot % PARAM_COUNT),
        Expr::MoverDistance(mover) => Expr::MoverDistance(mover % MOVER_COUNT),
        Expr::MoverWindow(mover) => Expr::MoverWindow(mover % MOVER_COUNT),
        Expr::Sin(a) => Expr::Sin(Box::new(with_wrapped_indexes(*a))),
        Expr::Cos(a) => Expr::Cos(Box::new(with_wrapped_indexes(*a))),
        Expr::Neg(a) => Expr::Neg(Box::new(with_wrapped_indexes(*a))),
        Expr::Add(a, b) => Expr::Add(
            Box::new(with_wrapped_indexes(*a)),
            Box::new(with_wrapped_indexes(*b)),
        ),
        Expr::Sub(a, b) => Expr::Sub(
            Box::new(with_wrapped_indexes(*a)),
            Box::new(with_wrapped_indexes(*b)),
        ),
        Expr::Mul(a, b) => Expr::Mul(
            Box::new(with_wrapped_indexes(*a)),
            Box::new(with_wrapped_indexes(*b)),
        ),
        Expr::Hypot(a, b) => Expr::Hypot(
            Box::new(with_wrapped_indexes(*a)),
            Box::new(with_wrapped_indexes(*b)),
        ),
        _ => expr,
    }
}

/// The text of any tree is the text of a tree that only indexes parameter
/// slots below `PARAM_COUNT` and movers below `MOVER_COUNT`, so the shader
/// never reads past `p[]` nor names a mover it does not declare. A tree that
/// already indexes within range is its own such tree.
pub proof fn lemma_emitted_as_wrapped_tree(expr: Expr)
    ensures
        with_wrapped_indexes(expr).indexes_in_range(),
        emitted(with_wrapped_indexes(expr)) == emitted(expr),
        expr.indexes_in_range() ==> with_wrapped_indexes(expr) == expr,
    decreases expr,
{
    match expr {
        Expr::Sin(a) => lemma_emitted_as_wrapped_tree(*a),
        Expr::Cos(a) => lemma_emitted_as_wrapped_tree(*a),
        Expr::Neg(a) => lemma_emitted_as_wrapped_tree(*a),
        Expr::Add(a, b) => {
            lemma_emitted_as_wrapped_tree(*a);
            lemma_emitted_as_wrapped_tree(*b);
        },
        Expr::Sub(a, b) => {
            lemma_emitted_as_wrapped_tree(*a);
            lemma_emitted_as_wrapped_tree(*b);
        },
        Expr::Mul(a, b) => {
            lemma_emitted_as_wrapped_tree(*a);
            lemma_emitted_as_wrapped_tree(*b);
        },
        Expr::Hypot(a, b) => {
            lemma_emitted_as_wrapped_tree(*a);
            lemma_emitted_as_wrapped_tree(*b);
        },
        _ => {},
    }
}

proof fn lemma_paren_free_piece_balanced(piece: Seq<char>, rest: Seq<char>)
    requires
        paren_free(piece),
        balanced(rest),
    ensures
        balanced(piece + rest),
{
    lemma_paren_free_balanced(piece);
    lemma_balanced_append(piece, rest);
}

/// `a`, a paren-free separator, then `b`: balanced when `a` and `b` are.
proof fn lemma_separated_balanced(a: Seq<char>, separator: Seq<char>, b: Seq<char>)
    requires
        balanced(a),
        paren_free(separator),
        balanced(b),
    ensures
        balanced(a + separator + b),
{
    lemma_paren_free_balanced(separator);
    lemma_balanced_append(a, separator);
    lemma_balanced_append(a + separator, b);
}

proof fn lemma_leaf_text_balanced(expr: Expr)
    requires
        expr is X || expr is Y || expr is Radius || expr is Theta,
    ensures
        emitted(expr).len() > 0,
        balanced(emitted(expr)),
{
    reveal_strlit("x");
    reveal_strlit("y");
    reveal_strlit("radius");
    reveal_strlit("theta");
    assert(paren_free(emitted(expr)));
    lemma_paren_free_balanced(emitted(expr));
}

proof fn lemma_time_text_balanced()
    ensures
        emitted(Expr::Time).len() > 0,
        balanced(emitted(Expr::Time)),
{
    reveal_strlit("(");
    reveal_strlit(")");
    reveal_strlit("(time * 0.03)");
    reveal_strlit("time * 0.03");
    assert(paren_free("time * 0.03"@));
    lemma_paren_free_balanced("time * 0.03"@);
    lemma_enclosed_balanced("time * 0.03"@);
    assert("(time * 0.03)"@ =~= "("@ + "time * 0.03"@ + ")"@);
}

proof fn lemma_index_text_balanced(expr: Expr)
    requires
        expr is Param || expr is MoverDistance || expr is MoverWindow,
    ensures
        emitted(expr).len() > 0,
        balanced(emitted(expr)),
{
    reveal_strlit("p[");
    reveal_strlit("]");
    reveal_strlit("moverDistance");
    reveal_strlit("moverWindow");
    let index: nat = match expr {
        Expr::Param(slot) => (slot % PARAM_COUNT) as nat,
        Expr::MoverDistance(mover) => (mover % MOVER_COUNT) as nat,
        Expr::MoverWindow(mover) => (mover % MOVER_COUNT) as nat,
        _ => 0,
    };
    let digits = decimal(index);
    lemma_decimal_paren_free(index);
    lemma_paren_free_balanced(digits);
    match expr {
        Expr::Param(_) => {
            lemma_paren_free_balanced("]"@);
            lemma_paren_free_piece_balanced("p["@, digits);
            lemma_balanced_append("p["@ + digits, "]"@);
        },
        Expr::MoverDistance(_) => lemma_paren_free_piece_balanced("moverDistance"@, digits),
        _ => lemma_paren_free_piece_balanced("moverWindow"@, digits),
    }
}

proof fn lemma_call_text_balanced(inner: Seq<char>)
    requires
        balanced(inner),
    ensures
        balanced("sin("@ + inner + ")"@),
        balanced("cos("@ + inner + ")"@),
        balanced("(-"@ + inner + ")"@),
        ("sin("@ + inner + ")"@).len() > 0,
        ("cos("@ + inner + ")"@).len() > 0,
        ("(-"@ + inner + ")"@).len() > 0,
{
    reveal_strlit("(");
    reveal_strlit(")");
    reveal_strlit("sin(");
    reveal_strlit("sin");
    reveal_strlit("cos(");
    reveal_strlit("cos");
    reveal_strlit("(-");
    reveal_strlit("-");
    lemma_enclosed_balanced(inner);
    lemma_paren_free_piece_balanced("sin"@, "("@ + inner + ")"@);
    assert("sin("@ + inner + ")"@ =~= "sin"@ + ("("@ + inner + ")"@));
    lemma_paren_free_piece_balanced("cos"@, "("@ + inner + ")"@);
    assert("cos("@ + inner + ")"@ =~= "cos"@ + ("("@ + inner + ")"@));
    lemma_paren_free_piece_balanced("-"@, inner);
    lemma_enclosed_balanced("-"@ + inner);
    assert("(-"@ + inner + ")"@ =~= "("@ + ("-"@ + inner) + ")"@);
}

proof fn lemma_operator_text_balanced(a: Seq<char>, operator: Seq<char>, b: Seq<char>)
    requires
        balanced(a),
        balanced(b),
        paren_free(operator),
    ensures
        balanced("("@ + a + operator + b + ")"@),
        ("("@ + a + operator + b + ")"@).len() > 0,
{
    reveal_strlit("(");
    reveal_strlit(")");
    lemma_separated_balanced(a, operator, b);
    lemma_enclosed_balanced(a + operator + b);
    assert("("@ + a + operator + b + ")"@ =~= "("@ + (a + operator + b) + ")"@);
}

proof fn lemma_operators_paren_free()
    ensures
        paren_free(" + "@),
        paren_free(" - "@),
        paren_free(" * "@),
{
    reveal_strlit(" + ");
    reveal_strlit(" - ");
    reveal_strlit(" * ");
}

proof fn lemma_hypot_text_balanced(a: Seq<char>, b: Seq<char>)
    requires
        balanced(a),
        balanced(b),
    ensures
        balanced("length(float2("@ + a + ", "@ + b + "))"@),
        ("length(float2("@ + a + ", "@ + b + "))"@).len() > 0,
{
    reveal_strlit("(");
    reveal_strlit(")");
    reveal_strlit(", ");
    reveal_strlit("length(float2(");
    reveal_strlit("length");
    reveal_strlit("float2");
    reveal_strlit("))");
    let pair = a + ", "@ + b;
    lemma_separated_balanced(a, ", "@, b);
    lemma_enclosed_balanced(pair);
    lemma_paren_free_piece_balanced("float2"@, "("@ + pair + ")"@);
    lemma_enclosed_balanced("float2"@ + ("("@ + pair + ")"@));
    lemma_paren_free_piece_balanced(
        "length"@,
        "("@ + ("float2"@ + ("("@ + pair + ")"@)) + ")"@,
    );
    assert("length(float2("@ + a + ", "@ + b + "))"@ =~= "length"@ + ("("@ + ("float2"@ + ("("@
        + pair + ")"@)) + ")"@));
}

/// The text `emit` writes for any tree is non-empty, and its parentheses
/// balance: each one is closed, and none is closed before it is opened.
pub proof fn lemma_emitted_balanced(expr: Expr)
    ensures
        emitted(expr).len() > 0,
        balanced(emitted(expr)),
    decreases expr,
{
    match expr {
        Expr::Time => lemma_time_text_balanced(),
        Expr::Param(_) => lemma_index_text_balanced(expr),
        Expr::MoverDistance(_) => lemma_index_text_balanced(expr),
        Expr::MoverWindow(_) => lemma_index_text_balanced(expr),
        Expr::Sin(a) => {
            lemma_emitted_balanced(*a);
            lemma_call_text_balanced(emitted(*a));
        },
        Expr::Cos(a) => {
            lemma_emitted_balanced(*a);
            lemma_call_text_balanced(emitted(*a));
        },
        Expr::Neg(a) => {
            lemma_emitted_balanced(*a);
            lemma_call_text_balanced(emitted(*a));
        },
        Expr::Add(a, b) => {
            lemma_emitted_balanced(*a);
            lemma_emitted_balanced(*b);
            lemma_operators_paren_free();
            lemma_operator_text_balanced(emitted(*a), " + "@, emitted(*b));
        },
        Expr::Sub(a, b) => {
            lemma_emitted_balanced(*a);
            lemma_emitted_balanced(*b);
            lemma_operators_paren_free();
            lemma_operator_text_balanced(emitted(*a), " - "@, emitted(*b));
        },
        Expr::Mul(a, b) => {
            lemma_emitted_balanced(*a);
            lemma_emitted_balanced(*b);
            lemma_operators_paren_free();
            lemma_operator_text_balanced(emitted(*a), " * "@, emitted(*b));
        },
        Expr::Hypot(a, b) => {
            lemma_emitted_balanced(*a);
            lemma_emitted_balanced(*b);
            lemma_hypot_text_balanced(emitted(*a), emitted(*b));
        },
        _ => lemma_leaf_text_balanced(expr),
    }
}


/// What the shader text indexes stays inside the arrays it declares: every
/// `[` in `text` opens `p[k]` with `k < PARAM_COUNT`, every `D` stands in a
/// name `moverDistanceK` and every `W` in a name `moverWindowK` with
/// `K < MOVER_COUNT`, and no digit runs on after the index. Each such read or
/// name holds its marker, so none can be written with another index.
pub open spec fn writes_indexes_in_range(text: Seq<char>) -> bool {
    &&& indexes_marked_below(text, '[', 1, "p["@, "]"@, PARAM_COUNT as nat)
    &&& indexes_marked_below(text, 'D', 5, "moverDistance"@, Seq::empty(), MOVER_COUNT as nat)
    &&& indexes_marked_below(text, 'W', 5, "moverWindow"@, Seq::empty(), MOVER_COUNT as nat)
}

proof fn lemma_clear_piece(piece: Seq<char>)
    requires
        forall|i: int|
            0 <= i < piece.len() ==> #[trigger] piece[i] != '[' && piece[i] != 'D' && piece[i]
                != 'W',
    ensures
        writes_indexes_in_range(piece),
{
    lemma_unmarked(piece, '[', 1, "p["@, "]"@, PARAM_COUNT as nat);
    lemma_unmarked(piece, 'D', 5, "moverDistance"@, Seq::empty(), MOVER_COUNT as nat);
    lemma_unmarked(piece, 'W', 5, "moverWindow"@, Seq::empty(), MOVER_COUNT as nat);
}

proof fn lemma_writes_append(a: Seq<char>, b: Seq<char>)
    requires
        writes_indexes_in_range(a),
        writes_indexes_in_range(b),
        starts_without_digit(b),
    ensures
        writes_indexes_in_range(a + b),
{
    lemma_marked_append(a, b, '[', 1, "p["@, "]"@, PARAM_COUNT as nat);
    lemma_marked_append(a, b, 'D', 5, "moverDistance"@, Seq::empty(), MOVER_COUNT as nat);
    lemma_marked_append(a, b, 'W', 5, "moverWindow"@, Seq::empty(), MOVER_COUNT as nat);
}

proof fn lemma_fixed_pieces_clear()
    ensures
        writes_indexes_in_range("x"@),
        writes_indexes_in_range("y"@),
        writes_indexes_in_range("radius"@),
        writes_indexes_in_range("theta"@),
        writes_indexes_in_range("(time * 0.03)"@),
        writes_indexes_in_range("sin("@),
        writes_indexes_in_range("cos("@),
        writes_indexes_in_range("(-"@),
        writes_indexes_in_range("("@),
        writes_indexes_in_range(")"@),
        writes_indexes_in_range(" + "@),
        writes_indexes_in_range(" - "@),
        writes_indexes_in_range(" * "@),
        writes_indexes_in_range("length(float2("@),
        writes_indexes_in_range(", "@),
        writes_indexes_in_range("))"@),
        starts_without_digit(")"@),
        starts_without_digit(" + "@),
        starts_without_digit(" - "@),
        starts_without_digit(" * "@),
        starts_without_digit(", "@),
        starts_without_digit("))"@),
{
    reveal_strlit("x");
    reveal_strlit("y");
    reveal_strlit("radius");
    reveal_strlit("theta");
    reveal_strlit("(time * 0.03)");
    reveal_strlit("sin(");
    reveal_strlit("cos(");
    reveal_strlit("(-");
    reveal_strlit("(");
    reveal_strlit(")");
    reveal_strlit(" + ");
    reveal_strlit(" - ");
    reveal_strlit(" * ");
    reveal_strlit("length(float2(");
    reveal_strlit(", ");
    reveal_strlit("))");
    lemma_clear_piece("x"@);
    lemma_clear_piece("y"@);
    lemma_clear_piece("radius"@);
    lemma_clear_piece("theta"@);
    lemma_clear_piece("(time * 0.03)"@);
    lemma_clear_piece("sin("@);
    lemma_clear_piece("cos("@);
    lemma_clear_piece("(-"@);
    lemma_clear_piece("("@);
    lemma_clear_piece(")"@);
    lemma_clear_piece(" + "@);
    lemma_clear_piece(" - "@);
    lemma_clear_piece(" * "@);
    lemma_clear_piece("length(float2("@);
    lemma_clear_piece(", "@);
    lemma_clear_piece("))"@);
}

proof fn lemma_param_piece(slot: nat)
    requires
        slot < PARAM_COUNT,
    ensures
        writes_indexes_in_range("p["@ + decimal(slot) + "]"@),
{
    reveal_strlit("p[");
    reveal_strlit("]");
    lemma_decimal_digits(slot);
    let digits = decimal(slot);
    let text = "p["@ + digits + "]"@;
    assert forall|i: int| 0 <= i < text.len() && i != 1 implies #[trigger] text[i] != '['
        && text[i] != 'D' && text[i] != 'W' by {
        if 2 <= i < 2 + digits.len() {
            assert(text[i] == digits[i - 2]);
        }
    }
    assert(text.subrange(0, text.len() as int) =~= text);
    assert(written_at(text, 0, "p["@ + decimal(slot) + "]"@));
    assert forall|i: int|
        #![trigger text[i]]
        0 <= i < text.len() && text[i] == '[' implies exists|index: nat|
            #![trigger decimal(index)]
            index < PARAM_COUNT as nat && written_at(text, i - 1, "p["@ + decimal(index) + "]"@) by {
        assert(i == 1);
        assert(written_at(text, i - 1, "p["@ + decimal(slot) + "]"@));
    }
    lemma_unmarked(text, 'D', 5, "moverDistance"@, Seq::empty(), MOVER_COUNT as nat);
    lemma_unmarked(text, 'W', 5, "moverWindow"@, Seq::empty(), MOVER_COUNT as nat);
}

proof fn lemma_mover_pieces(mover: nat)
    requires
        mover < MOVER_COUNT,
    ensures
        writes_indexes_in_range("moverDistance"@ + decimal(mover)),
        writes_indexes_in_range("moverWindow"@ + decimal(mover)),
{
    reveal_strlit("moverDistance");
    reveal_strlit("moverWindow");
    lemma_decimal_digits(mover);
    let digits = decimal(mover);
    let distance = "moverDistance"@ + digits;
    let window = "moverWindow"@ + digits;
    assert forall|i: int| 0 <= i < distance.len() && i != 5 implies #[trigger] distance[i] != '['
        && distance[i] != 'D' && distance[i] != 'W' by {
        if i >= 13 {
            assert(distance[i] == digits[i - 13]);
        }
    }
    assert forall|i: int| 0 <= i < window.len() && i != 5 implies #[trigger] window[i] != '['
        && window[i] != 'D' && window[i] != 'W' by {
        if i >= 11 {
            assert(window[i] == digits[i - 11]);
        }
    }
    assert(distance.subrange(0, distance.len() as int) =~= "moverDistance"@ + decimal(mover)
        + Seq::empty());
    assert(window.subrange(0, window.len() as int) =~= "moverWindow"@ + decimal(mover)
        + Seq::empty());
    assert forall|i: int|
        #![trigger distance[i]]
        0 <= i < distance.len() && distance[i] == 'D' implies exists|index: nat|
            #![trigger decimal(index)]
            index < MOVER_COUNT as nat && written_at(
                distance,
                i - 5,
                "moverDistance"@ + decimal(index) + Seq::empty(),
            ) by {
        assert(i == 5);
        assert(written_at(distance, 0, "moverDistance"@ + decimal(mover) + Seq::empty()));
    }
    assert forall|i: int|
        #![trigger window[i]]
        0 <= i < window.len() && window[i] == 'W' implies exists|index: nat|
            #![trigger decimal(index)]
            index < MOVER_COUNT as nat && written_at(
                window,
                i - 5,
                "moverWindow"@ + decimal(index) + Seq::empty(),
            ) by {
        assert(i == 5);
        assert(written_at(window, 0, "moverWindow"@ + decimal(mover) + Seq::empty()));
    }
    lemma_unmarked(distance, '[', 1, "p["@, "]"@, PARAM_COUNT as nat);
    lemma_unmarked(distance, 'W', 5, "moverWindow"@, Seq::empty(), MOVER_COUNT as nat);
    lemma_unmarked(window, '[', 1, "p["@, "]"@, PARAM_COUNT as nat);
    lemma_unmarked(window, 'D', 5, "moverDistance"@, Seq::empty(), MOVER_COUNT as nat);
}

proof fn lemma_emitted_starts_without_digit(expr: Expr)
    ensures
        emitted(expr).len() > 0,
        starts_without_digit(emitted(expr)),
{
    reveal_strlit("x");
    reveal_strlit("y");
    reveal_strlit("radius");
    reveal_strlit("theta");
    reveal_strlit("(time * 0.03)");
    reveal_strlit("p[");
    reveal_strlit("moverDistance");
    reveal_strlit("moverWindow");
    reveal_strlit("sin(");
    reveal_strlit("cos(");
    reveal_strlit("(-");
    reveal_strlit("(");
    reveal_strlit("length(float2(");
}

/// Whatever the tree, the text `emit` writes for it reads `p` only at slots
/// below `PARAM_COUNT` and names only movers below `MOVER_COUNT`.
pub proof fn lemma_emitted_reads_in_range(expr: Expr)
    ensures
        writes_indexes_in_range(emitted(expr)),
    decreases expr,
{
    lemma_fixed_pieces_clear();
    match expr {
        Expr::Param(slot) => lemma_param_piece((slot % PARAM_COUNT) as nat),
        Expr::MoverDistance(mover) => lemma_mover_pieces((mover % MOVER_COUNT) as nat),
        Expr::MoverWindow(mover) => lemma_mover_pieces((mover % MOVER_COUNT) as nat),
        Expr::Sin(a) => {
            lemma_emitted_reads_in_range(*a);
            lemma_emitted_starts_without_digit(*a);
            lemma_writes_append("sin("@, emitted(*a));
            lemma_writes_append("sin("@ + emitted(*a), ")"@);
        },
        Expr::Cos(a) => {
            lemma_emitted_reads_in_range(*a);
            lemma_emitted_starts_without_digit(*a);
            lemma_writes_append("cos("@, emitted(*a));
            lemma_writes_append("cos("@ + emitted(*a), ")"@);
        },
        Expr::Neg(a) => {
            lemma_emitted_reads_in_range(*a);
            lemma_emitted_starts_without_digit(*a);
            lemma_writes_append("(-"@, emitted(*a));
            lemma_writes_append("(-"@ + emitted(*a), ")"@);
        },
        Expr::Add(a, b) => {
            lemma_emitted_reads_in_range(*a);
            lemma_emitted_reads_in_range(*b);
            lemma_emitted_starts_without_digit(*a);
            lemma_emitted_starts_without_digit(*b);
            lemma_pair_reads_in_range("("@, emitted(*a), " + "@, emitted(*b), ")"@);
        },
        Expr::Sub(a, b) => {
            lemma_emitted_reads_in_range(*a);
            lemma_emitted_reads_in_range(*b);
            lemma_emitted_starts_without_digit(*a);
            lemma_emitted_starts_without_digit(*b);
            lemma_pair_reads_in_range("("@, emitted(*a), " - "@, emitted(*b), ")"@);
        },
        Expr::Mul(a, b) => {
            lemma_emitted_reads_in_range(*a);
            lemma_emitted_reads_in_range(*b);
            lemma_emitted_starts_without_digit(*a);
            lemma_emitted_starts_without_digit(*b);
            lemma_pair_reads_in_range("("@, emitted(*a), " * "@, emitted(*b), ")"@);
        },
        Expr::Hypot(a, b) => {
            lemma_emitted_reads_in_range(*a);
            lemma_emitted_reads_in_range(*b);
            lemma_emitted_starts_without_digit(*a);
            lemma_emitted_starts_without_digit(*b);
            lemma_pair_reads_in_range("length(float2("@, emitted(*a), ", "@, emitted(*b), "))"@);
        },
        _ => {},
    }
}

proof fn lemma_pair_reads_in_range(
    front: Seq<char>,
    a: Seq<char>,
    middle: Seq<char>,
    b: Seq<char>,
    back: Seq<char>,
)
    requires
        writes_indexes_in_range(front),
        writes_indexes_in_range(a),
        writes_indexes_in_range(middle),
        writes_indexes_in_range(b),
        writes_indexes_in_range(back),
        starts_without_digit(a),
        starts_without_digit(middle),
        starts_without_digit(b),
        starts_without_digit(back),
    ensures
        writes_indexes_in_range(front + a + middle + b + back),
{
    lemma_writes_append(front, a);
    lemma_writes_append(front + a, middle);
    lemma_writes_append(front + a + middle, b);
    lemma_writes_append(front + a + middle + b, back);
}


/// A parameter read is written `p[`, the slot the shader reads, `]`: the
/// characters between the brackets are digits that read back as
/// `slot % PARAM_COUNT`, with no leading zero.
pub proof fn lemma_param_read_text(slot: usize)
    ensures
        ({
            let text = emitted(Expr::Param(slot));
            let digits = text.subrange(2, text.len() - 1);
            &&& text.len() >= 4
            &&& text.subrange(0, 2) == "p["@
            &&& text.last() == ']'
            &&& forall|i: int| 0 <= i < digits.len() ==> is_digit(#[trigger] digits[i])
            &&& digits_value(digits) == slot % PARAM_COUNT
            &&& (digits.len() == 1 || digits[0] != '0')
        }),
{
    reveal_strlit("p[");
    reveal_strlit("]");
    let numeral = decimal((slot % PARAM_COUNT) as nat);
    lemma_decimal_reads_back((slot % PARAM_COUNT) as nat);
    let text = emitted(Expr::Param(slot));
    assert(text == "p["@ + numeral + "]"@);
    assert(text.subrange(2, text.len() - 1) =~= numeral);
    assert(text.subrange(0, 2) =~= "p["@);
}

/// A mover's name is `moverDistance` or `moverWindow` followed by one digit:
/// the mover `mover % MOVER_COUNT` the shader declares.
pub proof fn lemma_mover_name_text(mover: usize)
    ensures
        ({
            let distance = emitted(Expr::MoverDistance(mover));
            let window = emitted(Expr::MoverWindow(mover));
            &&& distance.len() == 14
            &&& distance.subrange(0, 13) == "moverDistance"@
            &&& is_digit(distance[13])
            &&& distance[13] as int - '0' as int == mover % MOVER_COUNT
            &&& window.len() == 12
            &&& window.subrange(0, 11) == "moverWindow"@
            &&& is_digit(window[11])
            &&& window[11] as int - '0' as int == mover % MOVER_COUNT
        }),
{
    reveal_strlit("moverDistance");
    reveal_strlit("moverWindow");
    let index = (mover % MOVER_COUNT) as nat;
    let numeral = decimal(index);
    lemma_decimal_reads_back(index);
    assert(numeral.len() == 1);
    assert(numeral.drop_last() =~= Seq::<char>::empty());
    assert(digits_value(numeral) == digits_value(Seq::<char>::empty()) * 10 + (numeral.last() as int
        - '0' as int) as nat);
    let distance = emitted(Expr::MoverDistance(mover));
    let window = emitted(Expr::MoverWindow(mover));
    assert(distance == "moverDistance"@ + numeral);
    assert(window == "moverWindow"@ + numeral);
    assert(distance.subrange(0, 13) =~= "moverDistance"@);
    assert(window.subrange(0, 11) =~= "moverWindow"@);
    assert(distance[13] == numeral[0]);
    assert(window[11] == numeral[0]);
}

} // verus!
