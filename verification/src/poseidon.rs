//! SIEVE IR text of the Poseidon hash over the BN254 scalar field, with a
//! state of three elements, eight full rounds (four before and four after
//! the partial rounds) and 57 partial rounds.
//!
//! Each round adds its three round constants to the state, raises the state
//! (a full round) or its first element (a partial round) to the fifth power,
//! and multiplies the state by the matrix with 2 on the diagonal and 1
//! elsewhere.

use vstd::prelude::*;

use crate::text::{decimal, push_decimal};

verus! {

/// The number of field elements in the state.
pub const WIDTH: usize = 3;

/// The number of full rounds, half of them before the partial rounds.
pub const FULL_ROUNDS: usize = 8;

/// The number of partial rounds.
pub const PARTIAL_ROUNDS: usize = 57;

/// The number of round constants: one per element of the state and round.
pub const ROUND_CONSTANT_COUNT: usize = (FULL_ROUNDS + PARTIAL_ROUNDS) * WIDTH;

/// The characteristic of the BN254 scalar field, in decimal.
pub open spec fn prime_field_text() -> Seq<char> {
    "21888242871839275222246405745257275088548364400416034343698204186575808495617"@
}

/// The entry of the MDS matrix in row `i`, column `j`.
pub open spec fn mds_text(i: nat, j: nat) -> Seq<char> {
    if i == j {
        "2"@
    } else {
        "1"@
    }
}

/// `$n`: element `n` of the state.
pub open spec fn reg(n: nat) -> Seq<char> {
    "$"@ + decimal(n)
}

/// `$tn`: temporary `n`.
pub open spec fn tmp(n: nat) -> Seq<char> {
    "$t"@ + decimal(n)
}

/// A statement of the function body: indented, on a line of its own.
pub open spec fn stmt(s: Seq<char>) -> Seq<char> {
    "        "@ + s + "\n"@
}

/// `$i <- $i;`, for the first `n` elements of the state.
pub open spec fn init_lines(n: nat) -> Seq<char>
    decreases n,
{
    if n == 0 {
        Seq::empty()
    } else {
        let i = (n - 1) as nat;
        init_lines(i) + stmt(reg(i) + " <- "@ + reg(i) + "; // Initialize state with input"@)
    }
}

/// Adding the constants `rc[k]`, `rc[k + 1]`, .. to the first `n` elements.
pub open spec fn rc_lines(rc: Seq<Seq<char>>, k: nat, n: nat) -> Seq<char>
    decreases n,
{
    if n == 0 {
        Seq::empty()
    } else {
        let i = (n - 1) as nat;
        rc_lines(rc, k, i) + stmt(
            reg(i) + " <- @addc("@ + reg(i) + ", $<"@ + rc[(k + i) as int] + ">); // Add round constant"@,
        )
    }
}

/// The fifth power of element `i`, through temporaries `i` and `i + 3`.
pub open spec fn sbox_lines(i: nat) -> Seq<char> {
    stmt(tmp(i) + " <- @mul("@ + reg(i) + ", "@ + reg(i) + "); // x^2"@) + stmt(
        tmp(i + 3) + " <- @mul("@ + tmp(i) + ", "@ + tmp(i) + "); // x^4"@,
    ) + stmt(reg(i) + " <- @mul("@ + tmp(i + 3) + ", "@ + reg(i) + "); // x^5"@)
}

/// The fifth powers of the first `n` elements.
pub open spec fn full_sbox_lines(n: nat) -> Seq<char>
    decreases n,
{
    if n == 0 {
        Seq::empty()
    } else {
        full_sbox_lines((n - 1) as nat) + sbox_lines((n - 1) as nat)
    }
}

/// The fifth power of the first element alone.
pub open spec fn partial_sbox_lines() -> Seq<char> {
    stmt("$t0 <- @mul($0, $0); // x^2"@) + stmt("$t1 <- @mul($t0, $t0); // x^4"@) + stmt(
        "$0 <- @mul($t1, $0); // x^5"@,
    )
}

/// `@mulc($j, $<m>)` for the entry `m` in row `i`, column `j`.
pub open spec fn mds_term(i: nat, j: nat) -> Seq<char> {
    "@mulc("@ + reg(j) + ", $<"@ + mds_text(i, j) + ">)"@
}

/// The terms of row `i` for the first `n` columns, joined by ` @add `.
pub open spec fn mds_sum(i: nat, n: nat) -> Seq<char>
    decreases n,
{
    if n == 0 {
        Seq::empty()
    } else if n == 1 {
        mds_term(i, 0)
    } else {
        mds_sum(i, (n - 1) as nat) + " @add "@ + mds_term(i, (n - 1) as nat)
    }
}

/// The first `n` rows of the matrix product, into temporaries `base..`.
pub open spec fn mds_lines(base: nat, n: nat) -> Seq<char>
    decreases n,
{
    if n == 0 {
        Seq::empty()
    } else {
        let i = (n - 1) as nat;
        mds_lines(base, i) + stmt(
            tmp(i + base) + " <- "@ + mds_sum(i, 3) + "; // MDS row "@ + decimal(i),
        )
    }
}

/// Copying temporaries `base..` back into the first `n` elements.
pub open spec fn update_lines(base: nat, n: nat) -> Seq<char>
    decreases n,
{
    if n == 0 {
        Seq::empty()
    } else {
        let i = (n - 1) as nat;
        update_lines(base, i) + stmt(reg(i) + " <- "@ + tmp(i + base) + "; // Update state"@)
    }
}

/// A full round with the constants `rc[k..k + 3]`.
pub open spec fn full_round(rc: Seq<Seq<char>>, k: nat) -> Seq<char> {
    rc_lines(rc, k, 3) + full_sbox_lines(3) + mds_lines(6, 3) + update_lines(6, 3)
}

/// A partial round with the constants `rc[k..k + 3]`.
pub open spec fn partial_round(rc: Seq<Seq<char>>, k: nat) -> Seq<char> {
    rc_lines(rc, k, 3) + partial_sbox_lines() + mds_lines(2, 3) + update_lines(2, 3)
}

/// `n` full rounds, the first with the constants from `rc[k]` on.
pub open spec fn full_rounds(rc: Seq<Seq<char>>, k: nat, n: nat) -> Seq<char>
    decreases n,
{
    if n == 0 {
        Seq::empty()
    } else {
        full_rounds(rc, k, (n - 1) as nat) + full_round(rc, k + 3 * (n - 1) as nat)
    }
}

/// `n` partial rounds, the first with the constants from `rc[k]` on.
pub open spec fn partial_rounds(rc: Seq<Seq<char>>, k: nat, n: nat) -> Seq<char>
    decreases n,
{
    if n == 0 {
        Seq::empty()
    } else {
        partial_rounds(rc, k, (n - 1) as nat) + partial_round(rc, k + 3 * (n - 1) as nat)
    }
}

/// The lines before the rounds.
pub open spec fn poseidon_head() -> Seq<char> {
    "version 2.0.0;\n"@ + "circuit;\n"@ + "@type field "@ + prime_field_text() + ";\n"@ + "@begin\n"@
        + "    @function(poseidon_hash, @out: 0:1, @in: 0:"@ + decimal(3) + ")\n"@ + init_lines(3)
}

/// The lines after the rounds.
pub open spec fn poseidon_tail() -> Seq<char> {
    stmt("$0 <- $0; // Output hash result"@) + "    @end\n"@ + "@end\n"@
}

/// The whole SIEVE IR text for the round constants `rc`: four full rounds
/// with `rc[0..12]`, the partial rounds with `rc[12..183]`, four full
/// rounds with `rc[183..195]`.
pub open spec fn poseidon_text(rc: Seq<Seq<char>>) -> Seq<char> {
    poseidon_head() + full_rounds(rc, 0, 4) + partial_rounds(rc, 12, 57) + full_rounds(rc, 183, 4)
        + poseidon_tail()
}

/// The texts of the round constants.
pub open spec fn constant_texts(rc: Seq<&str>) -> Seq<Seq<char>> {
    rc.map_values(|s: &str| s@)
}

/// Appends `$n`.
fn push_reg(out: &mut String, n: usize)
    ensures
        final(out)@ == old(out)@ + reg(n as nat),
{
    let ghost start = out@;
    out.append("$");
    push_decimal(out, n);
    assert(out@ =~= start + reg(n as nat));
}

/// Appends `$tn`.
fn push_tmp(out: &mut String, n: usize)
    ensures
        final(out)@ == old(out)@ + tmp(n as nat),
{
    let ghost start = out@;
    out.append("$t");
    push_decimal(out, n);
    assert(out@ =~= start + tmp(n as nat));
}

/// The MDS entry in row `i`, column `j`.
fn mds_entry(i: usize, j: usize) -> (s: &'static str)
    ensures
        s@ == mds_text(i as nat, j as nat),
{
    if i == j {
        "2"
    } else {
        "1"
    }
}

/// Appends the initialising lines.
fn push_init_lines(out: &mut String)
    ensures
        final(out)@ == old(out)@ + init_lines(3),
{
    let ghost start = out@;
    let mut i: usize = 0;
    while i < WIDTH
        invariant
            i <= WIDTH,
            out@ == start + init_lines(i as nat),
        decreases WIDTH - i,
    {
        let ghost before = out@;
        out.append("        ");
        push_reg(out, i);
        out.append(" <- ");
        push_reg(out, i);
        out.append("; // Initialize state with input");
        out.append("\n");
        assert(out@ =~= before + stmt(reg(i as nat) + " <- "@ + reg(i as nat) + "; // Initialize state with input"@));
        i = i + 1;
        assert(out@ =~= start + init_lines(i as nat));
    }
}

/// Appends the lines that add `rc[k..k + 3]` to the state.
fn push_rc_lines(out: &mut String, rc: &[&str; ROUND_CONSTANT_COUNT], k: usize)
    requires
        k + WIDTH <= ROUND_CONSTANT_COUNT,
    ensures
        final(out)@ == old(out)@ + rc_lines(constant_texts(rc@), k as nat, 3),
{
    let ghost start = out@;
    let ghost cs = constant_texts(rc@);
    let mut i: usize = 0;
    while i < WIDTH
        invariant
            i <= WIDTH,
            k + WIDTH <= ROUND_CONSTANT_COUNT,
            cs == constant_texts(rc@),
            out@ == start + rc_lines(cs, k as nat, i as nat),
        decreases WIDTH - i,
    {
        let ghost before = out@;
        out.append("        ");
        push_reg(out, i);
        out.append(" <- @addc(");
        push_reg(out, i);
        out.append(", $<");
        out.append(rc[k + i]);
        out.append(">); // Add round constant");
        out.append("\n");
        assert(cs[k + i] == rc@[k + i]@);
        assert(out@ =~= before + stmt(
            reg(i as nat) + " <- @addc("@ + reg(i as nat) + ", $<"@ + cs[k + i] + ">); // Add round constant"@,
        ));
        i = i + 1;
        assert(out@ =~= start + rc_lines(cs, k as nat, i as nat));
    }
}

/// Appends `$ti <- @mul($i, $i); // x^2`.
fn push_square_line(out: &mut String, i: usize)
    ensures
        final(out)@ == old(out)@ + stmt(tmp(i as nat) + " <- @mul("@ + reg(i as nat) + ", "@ + reg(i as nat) + "); // x^2"@),
{
    let ghost before = out@;
    out.append("        ");
    push_tmp(out, i);
    out.append(" <- @mul(");
    push_reg(out, i);
    out.append(", ");
    push_reg(out, i);
    out.append("); // x^2");
    out.append("\n");
    assert(out@ =~= before + stmt(tmp(i as nat) + " <- @mul("@ + reg(i as nat) + ", "@ + reg(i as nat) + "); // x^2"@));
}

/// Appends `$tj <- @mul($ti, $ti); // x^4`.
fn push_fourth_line(out: &mut String, i: usize, j: usize)
    ensures
        final(out)@ == old(out)@ + stmt(tmp(j as nat) + " <- @mul("@ + tmp(i as nat) + ", "@ + tmp(i as nat) + "); // x^4"@),
{
    let ghost before = out@;
    out.append("        ");
    push_tmp(out, j);
    out.append(" <- @mul(");
    push_tmp(out, i);
    out.append(", ");
    push_tmp(out, i);
    out.append("); // x^4");
    out.append("\n");
    assert(out@ =~= before + stmt(tmp(j as nat) + " <- @mul("@ + tmp(i as nat) + ", "@ + tmp(i as nat) + "); // x^4"@));
}

/// Appends `$i <- @mul($tj, $i); // x^5`.
fn push_fifth_line(out: &mut String, i: usize, j: usize)
    ensures
        final(out)@ == old(out)@ + stmt(reg(i as nat) + " <- @mul("@ + tmp(j as nat) + ", "@ + reg(i as nat) + "); // x^5"@),
{
    let ghost before = out@;
    out.append("        ");
    push_reg(out, i);
    out.append(" <- @mul(");
    push_tmp(out, j);
    out.append(", ");
    push_reg(out, i);
    out.append("); // x^5");
    out.append("\n");
    assert(out@ =~= before + stmt(reg(i as nat) + " <- @mul("@ + tmp(j as nat) + ", "@ + reg(i as nat) + "); // x^5"@));
}

/// Appends the fifth power of element `i`.
fn push_sbox_lines(out: &mut String, i: usize)
    requires
        i < WIDTH,
    ensures
        final(out)@ == old(out)@ + sbox_lines(i as nat),
{
    let ghost before = out@;
    push_square_line(out, i);
    push_fourth_line(out, i, i + WIDTH);
    push_fifth_line(out, i, i + WIDTH);
    assert(out@ =~= before + sbox_lines(i as nat));
}

/// Appends the fifth powers of the whole state.
fn push_full_sbox_lines(out: &mut String)
    ensures
        final(out)@ == old(out)@ + full_sbox_lines(3),
{
    let ghost start = out@;
    let mut i: usize = 0;
    while i < WIDTH
        invariant
            i <= WIDTH,
            out@ == start + full_sbox_lines(i as nat),
        decreases WIDTH - i,
    {
        push_sbox_lines(out, i);
        i = i + 1;
        assert(out@ =~= start + full_sbox_lines(i as nat));
    }
}

/// Appends the fifth power of the first element.
fn push_partial_sbox_lines(out: &mut String)
    ensures
        final(out)@ == old(out)@ + partial_sbox_lines(),
{
    let ghost start = out@;
    out.append("        ");
    out.append("$t0 <- @mul($0, $0); // x^2");
    out.append("\n");
    out.append("        ");
    out.append("$t1 <- @mul($t0, $t0); // x^4");
    out.append("\n");
    out.append("        ");
    out.append("$0 <- @mul($t1, $0); // x^5");
    out.append("\n");
    assert(out@ =~= start + partial_sbox_lines());
}

/// Appends the terms of row `i` of the matrix product.
fn push_mds_sum(out: &mut String, i: usize)
    requires
        i < WIDTH,
    ensures
        final(out)@ == old(out)@ + mds_sum(i as nat, 3),
{
    let ghost start = out@;
    let mut j: usize = 0;
    while j < WIDTH
        invariant
            i < WIDTH,
            j <= WIDTH,
            out@ == start + mds_sum(i as nat, j as nat),
        decreases WIDTH - j,
    {
        let ghost before = out@;
        if j > 0 {
            out.append(" @add ");
        }
        let ghost mid = out@;
        out.append("@mulc(");
        push_reg(out, j);
        out.append(", $<");
        out.append(mds_entry(i, j));
        out.append(">)");
        assert(out@ =~= mid + mds_term(i as nat, j as nat));
        j = j + 1;
        assert(out@ =~= start + mds_sum(i as nat, j as nat));
    }
}

/// Appends the rows of the matrix product, into temporaries `base..`.
fn push_mds_lines(out: &mut String, base: usize)
    requires
        base <= 6,
    ensures
        final(out)@ == old(out)@ + mds_lines(base as nat, 3),
{
    let ghost start = out@;
    let mut i: usize = 0;
    while i < WIDTH
        invariant
            i <= WIDTH,
            base <= 6,
            out@ == start + mds_lines(base as nat, i as nat),
        decreases WIDTH - i,
    {
        let ghost before = out@;
        out.append("        ");
        push_tmp(out, i + base);
        out.append(" <- ");
        push_mds_sum(out, i);
        out.append("; // MDS row ");
        push_decimal(out, i);
        out.append("\n");
        assert(out@ =~= before + stmt(
            tmp(i as nat + base as nat) + " <- "@ + mds_sum(i as nat, 3) + "; // MDS row "@ + decimal(i as nat),
        ));
        i = i + 1;
        assert(out@ =~= start + mds_lines(base as nat, i as nat));
    }
}

/// Appends the lines that copy temporaries `base..` back into the state.
fn push_update_lines(out: &mut String, base: usize)
    requires
        base <= 6,
    ensures
        final(out)@ == old(out)@ + update_lines(base as nat, 3),
{
    let ghost start = out@;
    let mut i: usize = 0;
    while i < WIDTH
        invariant
            i <= WIDTH,
            base <= 6,
            out@ == start + update_lines(base as nat, i as nat),
        decreases WIDTH - i,
    {
        let ghost before = out@;
        out.append("        ");
        push_reg(out, i);
        out.append(" <- ");
        push_tmp(out, i + base);
        out.append("; // Update state");
        out.append("\n");
        assert(out@ =~= before + stmt(reg(i as nat) + " <- "@ + tmp(i as nat + base as nat) + "; // Update state"@));
        i = i + 1;
        assert(out@ =~= start + update_lines(base as nat, i as nat));
    }
}

/// Appends `n` full rounds, the first with the constants from `rc[k]` on.
fn push_full_rounds(out: &mut String, rc: &[&str; ROUND_CONSTANT_COUNT], k: usize, n: usize)
    requires
        k + WIDTH * n <= ROUND_CONSTANT_COUNT,
    ensures
        final(out)@ == old(out)@ + full_rounds(constant_texts(rc@), k as nat, n as nat),
{
    let ghost start = out@;
    let ghost cs = constant_texts(rc@);
    let mut r: usize = 0;
    while r < n
        invariant
            r <= n,
            k + WIDTH * n <= ROUND_CONSTANT_COUNT,
            cs == constant_texts(rc@),
            out@ == start + full_rounds(cs, k as nat, r as nat),
        decreases n - r,
    {
        let ghost before = out@;
        assert(k + WIDTH * r + WIDTH <= ROUND_CONSTANT_COUNT) by (nonlinear_arith)
            requires
                r < n,
                k + WIDTH * n <= ROUND_CONSTANT_COUNT,
        ;
        let first = k + WIDTH * r;
        push_rc_lines(out, rc, first);
        push_full_sbox_lines(out);
        push_mds_lines(out, 2 * WIDTH);
        push_update_lines(out, 2 * WIDTH);
        assert(out@ =~= before + full_round(cs, first as nat));
        r = r + 1;
        assert(out@ =~= start + full_rounds(cs, k as nat, r as nat));
    }
}

/// Appends `n` partial rounds, the first with the constants from `rc[k]` on.
fn push_partial_rounds(out: &mut String, rc: &[&str; ROUND_CONSTANT_COUNT], k: usize, n: usize)
    requires
        k + WIDTH * n <= ROUND_CONSTANT_COUNT,
    ensures
        final(out)@ == old(out)@ + partial_rounds(constant_texts(rc@), k as nat, n as nat),
{
    let ghost start = out@;
    let ghost cs = constant_texts(rc@);
    let mut r: usize = 0;
    while r < n
        invariant
            r <= n,
            k + WIDTH * n <= ROUND_CONSTANT_COUNT,
            cs == constant_texts(rc@),
            out@ == start + partial_rounds(cs, k as nat, r as nat),
        decreases n - r,
    {
        let ghost before = out@;
        assert(k + WIDTH * r + WIDTH <= ROUND_CONSTANT_COUNT) by (nonlinear_arith)
            requires
                r < n,
                k + WIDTH * n <= ROUND_CONSTANT_COUNT,
        ;
        let first = k + WIDTH * r;
        push_rc_lines(out, rc, first);
        push_partial_sbox_lines(out);
        push_mds_lines(out, 2);
        push_update_lines(out, 2);
        assert(out@ =~= before + partial_round(cs, first as nat));
        r = r + 1;
        assert(out@ =~= start + partial_rounds(cs, k as nat, r as nat));
    }
}

/// The SIEVE IR text of the Poseidon hash of three field elements, with the
/// round constants `round_constants`: four full rounds, the partial rounds
/// and four full rounds again, each adding the next three constants.
pub fn generate_poseidon_sieve_ir(round_constants: &[&str; ROUND_CONSTANT_COUNT]) -> (text: String)
    ensures
        text@ == poseidon_text(constant_texts(round_constants@)),
{
    let mut out = String::new();
    out.append("version 2.0.0;\n");
    out.append("circuit;\n");
    out.append("@type field ");
    out.append("21888242871839275222246405745257275088548364400416034343698204186575808495617");
    out.append(";\n");
    out.append("@begin\n");
    out.append("    @function(poseidon_hash, @out: 0:1, @in: 0:");
    push_decimal(&mut out, WIDTH);
    out.append(")\n");
    push_init_lines(&mut out);
    assert(out@ =~= poseidon_head());
    push_full_rounds(&mut out, round_constants, 0, FULL_ROUNDS / 2);
    push_partial_rounds(&mut out, round_constants, WIDTH * FULL_ROUNDS / 2, PARTIAL_ROUNDS);
    push_full_rounds(
        &mut out,
        round_constants,
        WIDTH * FULL_ROUNDS / 2 + WIDTH * PARTIAL_ROUNDS,
        FULL_ROUNDS / 2,
    );
    let ghost body = out@;
    out.append("        ");
    out.append("$0 <- $0; // Output hash result");
    out.append("\n");
    out.append("    @end\n");
    out.append("@end\n");
    assert(out@ =~= body + poseidon_tail());
    assert(out@ =~= poseidon_text(constant_texts(round_constants@)));
    out
}

} // verus!
