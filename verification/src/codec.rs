//! Codec for the durable snapshot record.
//!
//! The snapshot is stored as a structured JSON record with the two player
//! tags, the three score counters and the nine-cell board.  The encoder
//! always emits the canonical form below, and the decoder accepts exactly
//! the records the encoder emits, so a stored snapshot round-trips to an
//! identical value.  The narrowing to the canonical form is deliberate:
//! the durable file is only ever written by this encoder, whose field
//! order and spacing match the stored records of earlier versions, and a
//! record in any other shape is treated as damaged rather than guessed at.

use vstd::prelude::*;
use crate::digits::{
    dec_digits, dec_val, digit_run_end, is_dec_digit, lemma_dec_digits, lemma_digit_run_end,
    parse_dec, push_dec,
};
use crate::game::{MatchState, Player, StateView};

verus! {

/// The bytes of an ASCII character sequence.
pub open spec fn char_bytes(v: Seq<char>) -> Seq<u8> {
    Seq::new(v.len(), |i: int| v[i] as u8)
}

/// The tag under which a player is stored.
pub open spec fn player_token(p: Player) -> Seq<char> {
    match p {
        Player::PlayerX => "PlayerX"@,
        Player::PlayerO => "PlayerO"@,
    }
}

/// The bytes of one board cell: a single decimal digit.
pub open spec fn cell_byte(c: u32) -> u8 {
    (48 + c) as u8
}

/// The bytes of the board array body: one digit per cell, separated by
/// commas.
pub open spec fn cells_bytes(b: Seq<u32>) -> Seq<u8>
    decreases b.len(),
{
    if b.len() == 0 {
        Seq::empty()
    } else if b.len() == 1 {
        seq![cell_byte(b[0])]
    } else {
        cells_bytes(b.drop_last()) + seq![44u8, cell_byte(b.last())]
    }
}

/// The canonical stored form of a snapshot.
pub open spec fn json_bytes(v: StateView) -> Seq<u8> {
    char_bytes("{\"start_player\":\""@) + char_bytes(player_token(v.start_player)) + char_bytes(
        "\",\"current_player\":\""@,
    ) + char_bytes(player_token(v.current_player)) + char_bytes("\",\"player_x_score\":"@)
        + dec_digits(v.player_x_score as nat) + char_bytes(",\"player_o_score\":"@) + dec_digits(
        v.player_o_score as nat,
    ) + char_bytes(",\"tie_score\":"@) + dec_digits(v.tie_score as nat) + char_bytes(
        ",\"board\":["@,
    ) + cells_bytes(v.board) + char_bytes("]}"@)
}

/// Appends the bytes of an ASCII literal to `out`.
pub(crate) fn push_lit(out: &mut Vec<u8>, s: &str)
    requires
        vstd::string::is_ascii(s),
    ensures
        final(out)@ == old(out)@ + char_bytes(s@),
{
    let bs = s.as_bytes();
    proof {
        broadcast use vstd::string::is_ascii_spec_bytes;

        assert(bs@ =~= char_bytes(s@));
    }
    out.extend_from_slice(bs);
    proof {
        assert(out@ =~= old(out)@ + char_bytes(s@));
    }
}

/// Appends a player's tag to `out`.
pub(crate) fn push_player(out: &mut Vec<u8>, p: Player)
    ensures
        final(out)@ == old(out)@ + char_bytes(player_token(p)),
{
    proof {
        reveal_strlit("PlayerX");
        reveal_strlit("PlayerO");
        assert(vstd::string::is_ascii("PlayerX"));
        assert(vstd::string::is_ascii("PlayerO"));
    }
    match p {
        Player::PlayerX => push_lit(out, "PlayerX"),
        Player::PlayerO => push_lit(out, "PlayerO"),
    }
}

/// Appends the board array body to `out`.
fn push_cells(out: &mut Vec<u8>, b: &Vec<u32>)
    requires
        b@.len() == 9,
        forall|i: int| 0 <= i < 9 ==> b@[i] <= 2,
    ensures
        final(out)@ == old(out)@ + cells_bytes(b@),
{
    let mut i: usize = 0;
    while i < 9
        invariant
            i <= 9,
            b@.len() == 9,
            forall|j: int| 0 <= j < 9 ==> b@[j] <= 2,
            out@ == old(out)@ + cells_bytes(b@.take(i as int)),
        decreases 9 - i,
    {
        proof {
            assert(b@.take(i + 1).drop_last() =~= b@.take(i as int));
            assert(b@.take(i + 1).last() == b@[i as int]);
        }
        if i > 0 {
            out.push(44);
        }
        let d: u8 = (48 + b[i]) as u8;
        out.push(d);
        proof {
            if i == 0 {
                assert(out@ =~= old(out)@ + cells_bytes(b@.take(1)));
            } else {
                assert(out@ =~= old(out)@ + cells_bytes(b@.take(i + 1)));
            }
        }
        i += 1;
    }
    proof {
        assert(b@.take(9) =~= b@);
    }
}

/// Encodes a snapshot in its canonical stored form.
pub fn serialize_state(state: &MatchState) -> (r: Vec<u8>)
    requires
        state@.wf(),
    ensures
        r@ == json_bytes(state@),
{
    proof {
        reveal_strlit("{\"start_player\":\"");
        reveal_strlit("\",\"current_player\":\"");
        reveal_strlit("\",\"player_x_score\":");
        reveal_strlit(",\"player_o_score\":");
        reveal_strlit(",\"tie_score\":");
        reveal_strlit(",\"board\":[");
        reveal_strlit("]}");
        assert(vstd::string::is_ascii("{\"start_player\":\""));
        assert(vstd::string::is_ascii("\",\"current_player\":\""));
        assert(vstd::string::is_ascii("\",\"player_x_score\":"));
        assert(vstd::string::is_ascii(",\"player_o_score\":"));
        assert(vstd::string::is_ascii(",\"tie_score\":"));
        assert(vstd::string::is_ascii(",\"board\":["));
        assert(vstd::string::is_ascii("]}"));
    }
    let mut out: Vec<u8> = Vec::new();
    push_lit(&mut out, "{\"start_player\":\"");
    push_player(&mut out, state.start_player);
    push_lit(&mut out, "\",\"current_player\":\"");
    push_player(&mut out, state.current_player);
    push_lit(&mut out, "\",\"player_x_score\":");
    push_dec(&mut out, state.player_x_score);
    push_lit(&mut out, ",\"player_o_score\":");
    push_dec(&mut out, state.player_o_score);
    push_lit(&mut out, ",\"tie_score\":");
    push_dec(&mut out, state.tie_score);
    push_lit(&mut out, ",\"board\":[");
    push_cells(&mut out, &state.board);
    push_lit(&mut out, "]}");
    proof {
        assert(out@ =~= json_bytes(state@));
    }
    out
}

/// Consumes an ASCII literal at `from`, failing when the bytes there do not
/// match it.
fn expect_lit(bytes: &Vec<u8>, from: usize, s: &str) -> (r: Option<usize>)
    requires
        from <= bytes@.len(),
        vstd::string::is_ascii(s),
    ensures
        r matches Some(j) ==> from + s@.len() == j && j <= bytes@.len() && bytes@.subrange(
            from as int,
            j as int,
        ) == char_bytes(s@),
        from + s@.len() <= bytes@.len() && bytes@.subrange(from as int, from + s@.len())
            == char_bytes(s@) ==> r is Some,
{
    let bs = s.as_bytes();
    proof {
        broadcast use vstd::string::is_ascii_spec_bytes;

        assert(bs@ =~= char_bytes(s@));
    }
    if bytes.len() - from < bs.len() {
        return None;
    }
    let mut k: usize = 0;
    while k < bs.len()
        invariant
            bytes@.len() <= usize::MAX,
            from + bs@.len() <= bytes@.len(),
            k <= bs@.len(),
            bs@ == char_bytes(s@),
            forall|m: int| 0 <= m < k ==> bytes@[from + m] == bs@[m],
        decreases bs@.len() - k,
    {
        if bytes[from + k] != bs[k] {
            proof {
                assert(bytes@.subrange(from as int, from + s@.len())[k as int] != char_bytes(
                    s@,
                )[k as int]);
            }
            return None;
        }
        k += 1;
    }
    proof {
        assert(bytes@.subrange(from as int, from + s@.len()) =~= char_bytes(s@));
    }
    Some(from + bs.len())
}

/// Consumes a player tag at `from`.
fn parse_player(bytes: &Vec<u8>, from: usize) -> (r: Option<(Player, usize)>)
    requires
        from <= bytes@.len(),
    ensures
        r matches Some(v) ==> from + 7 == v.1 && v.1 <= bytes@.len() && bytes@.subrange(
            from as int,
            v.1 as int,
        ) == char_bytes(player_token(v.0)),
        forall|p: Player|
            from + 7 <= bytes@.len() && bytes@.subrange(from as int, from + 7) == char_bytes(
                #[trigger] player_token(p),
            ) ==> (r matches Some(v) && v.0 == p),
{
    proof {
        reveal_strlit("PlayerX");
        reveal_strlit("PlayerO");
        assert(vstd::string::is_ascii("PlayerX"));
        assert(vstd::string::is_ascii("PlayerO"));
        assert(("PlayerX"@).len() == 7 && ("PlayerO"@).len() == 7);
        assert(char_bytes("PlayerX"@)[6] != char_bytes("PlayerO"@)[6]);
    }
    match expect_lit(bytes, from, "PlayerX") {
        Some(j) => Some((Player::PlayerX, j)),
        None => {
            match expect_lit(bytes, from, "PlayerO") {
                Some(j) => Some((Player::PlayerO, j)),
                None => None,
            }
        },
    }
}

/// The board array body has one digit and one comma per cell, less the
/// leading comma, and a digit at every even offset.
proof fn lemma_cells_bytes(b: Seq<u32>)
    requires
        b.len() >= 1,
        forall|i: int| 0 <= i < b.len() ==> b[i] <= 2,
    ensures
        cells_bytes(b).len() == 2 * b.len() - 1,
        forall|i: int|
            0 <= i < b.len() ==> #[trigger] cells_bytes(b)[2 * i] == cell_byte(b[i]),
        forall|i: int| 0 <= i < b.len() - 1 ==> #[trigger] cells_bytes(b)[2 * i + 1] == 44u8,
    decreases b.len(),
{
    if b.len() > 1 {
        lemma_cells_bytes(b.drop_last());
        assert forall|i: int| 0 <= i < b.len() implies #[trigger] cells_bytes(b)[2 * i]
            == cell_byte(b[i]) by {
            if i < b.len() - 1 {
                assert(cells_bytes(b.drop_last())[2 * i] == cell_byte(b.drop_last()[i]));
            }
        }
        assert forall|i: int| 0 <= i < b.len() - 1 implies #[trigger] cells_bytes(b)[2 * i + 1]
            == 44u8 by {
            if i < b.len() - 2 {
                assert(cells_bytes(b.drop_last())[2 * i + 1] == 44u8);
            }
        }
    }
}

/// Consumes the board array body at `from`: nine digit cells separated by
/// commas.
fn parse_cells(bytes: &Vec<u8>, from: usize) -> (r: Option<(Vec<u32>, usize)>)
    requires
        from <= bytes@.len(),
    ensures
        r matches Some(v) ==> {
            &&& v.0@.len() == 9
            &&& forall|i: int| 0 <= i < 9 ==> v.0@[i] <= 2
            &&& from + 17 == v.1 && v.1 <= bytes@.len()
            &&& bytes@.subrange(from as int, v.1 as int) == cells_bytes(v.0@)
        },
        forall|b: Seq<u32>|
            b.len() == 9 && (forall|i: int| 0 <= i < 9 ==> b[i] <= 2) && from + 17 <= bytes@.len()
                && bytes@.subrange(from as int, from + 17) == #[trigger] cells_bytes(b) ==> (r
                matches Some(v) && v.0@ == b),
{
    if bytes.len() - from < 17 {
        return None;
    }
    let mut cells: Vec<u32> = Vec::new();
    let mut i: usize = 0;
    while i < 9
        invariant
            bytes@.len() <= usize::MAX,
            from + 17 <= bytes@.len(),
            i <= 9,
            cells@.len() == i,
            forall|j: int| 0 <= j < i ==> cells@[j] <= 2,
            i >= 1 ==> bytes@.subrange(from as int, from + 2 * i - 1) == cells_bytes(cells@),
        decreases 9 - i,
    {
        if i > 0 {
            if bytes[from + 2 * i - 1] != 44 {
                proof {
                    assert forall|b: Seq<u32>|
                        b.len() == 9 && (forall|i2: int| 0 <= i2 < 9 ==> b[i2] <= 2)
                            && bytes@.subrange(from as int, from + 17) == #[trigger] cells_bytes(
                            b,
                        ) implies false by {
                        lemma_cells_bytes(b);
                        assert(cells_bytes(b)[2 * ((i as int) - 1) + 1] == 44u8);
                        assert(2 * ((i as int) - 1) + 1 == 2 * (i as int) - 1);
                        assert(bytes@[from + 2 * i - 1] == bytes@.subrange(from as int, from + 17)[2
                            * (i as int) - 1]);
                    }
                }
                return None;
            }
        }
        let c = bytes[from + 2 * i];
        if c < 48 || c > 50 {
            proof {
                assert forall|b: Seq<u32>|
                    b.len() == 9 && (forall|i2: int| 0 <= i2 < 9 ==> b[i2] <= 2)
                        && bytes@.subrange(from as int, from + 17) == #[trigger] cells_bytes(
                        b,
                    ) implies false by {
                    lemma_cells_bytes(b);
                    assert(cells_bytes(b)[2 * (i as int)] == cell_byte(b[i as int]));
                    assert(bytes@[from + 2 * i] == bytes@.subrange(from as int, from + 17)[2 * (
                    i as int)]);
                }
            }
            return None;
        }
        let ghost prev = cells@;
        cells.push((c - 48) as u32);
        proof {
            assert(cells@.drop_last() =~= prev);
            assert(cells@.last() == (c - 48) as u32);
            if i == 0 {
                assert(bytes@.subrange(from as int, from + 1) =~= cells_bytes(cells@));
            } else {
                assert(cells_bytes(cells@) == cells_bytes(prev) + seq![44u8, cell_byte(
                    cells@.last(),
                )]);
                assert(bytes@.subrange(from as int, from + 2 * (i + 1) - 1) =~= cells_bytes(
                    cells@,
                ));
            }
        }
        i += 1;
    }
    proof {
        assert forall|b: Seq<u32>|
            b.len() == 9 && (forall|i2: int| 0 <= i2 < 9 ==> b[i2] <= 2) && bytes@.subrange(
                from as int,
                from + 17,
            ) == #[trigger] cells_bytes(b) implies cells@ == b by {
            lemma_cells_bytes(b);
            lemma_cells_bytes(cells@);
            assert forall|j: int| 0 <= j < 9 implies cells@[j] == b[j] by {
                assert(cells_bytes(cells@)[2 * j] == cell_byte(cells@[j]));
                assert(cells_bytes(b)[2 * j] == cell_byte(b[j]));
            }
            assert(cells@ =~= b);
        }
    }
    Some((cells, from + 17))
}

/// The offset of the first score's digits in a stored snapshot.
pub open spec fn off_xs() -> int {
    17int + 7 + 20 + 7 + 19
}

/// The offset of the second score's digits in a stored snapshot.
pub open spec fn off_os(v: StateView) -> int {
    off_xs() + dec_digits(v.player_x_score as nat).len() + 18
}

/// The offset of the tie score's digits in a stored snapshot.
pub open spec fn off_ts(v: StateView) -> int {
    off_os(v) + dec_digits(v.player_o_score as nat).len() + 13
}

/// The offset of the board body in a stored snapshot.
pub open spec fn off_board(v: StateView) -> int {
    off_ts(v) + dec_digits(v.tie_score as nat).len() + 10
}

/// The total length of a stored snapshot.
pub open spec fn total_len(v: StateView) -> int {
    off_board(v) + 17 + 2
}

/// How a stored snapshot decomposes into its segments.
proof fn lemma_json_decomp(bs: Seq<u8>, v: StateView)
    requires
        v.wf(),
        bs == json_bytes(v),
    ensures
        bs.len() == total_len(v),
        bs.subrange(0, 17) == char_bytes("{\"start_player\":\""@),
        bs.subrange(17, 24) == char_bytes(player_token(v.start_player)),
        bs.subrange(24, 44) == char_bytes("\",\"current_player\":\""@),
        bs.subrange(44, 51) == char_bytes(player_token(v.current_player)),
        bs.subrange(51, off_xs()) == char_bytes("\",\"player_x_score\":"@),
        bs.subrange(off_xs(), off_os(v) - 18) == dec_digits(v.player_x_score as nat),
        digit_run_end(bs, off_xs()) == off_os(v) - 18,
        dec_val(bs.subrange(off_xs(), off_os(v) - 18)) == v.player_x_score,
        bs.subrange(off_os(v) - 18, off_os(v)) == char_bytes(",\"player_o_score\":"@),
        bs.subrange(off_os(v), off_ts(v) - 13) == dec_digits(v.player_o_score as nat),
        digit_run_end(bs, off_os(v)) == off_ts(v) - 13,
        dec_val(bs.subrange(off_os(v), off_ts(v) - 13)) == v.player_o_score,
        bs.subrange(off_ts(v) - 13, off_ts(v)) == char_bytes(",\"tie_score\":"@),
        bs.subrange(off_ts(v), off_board(v) - 10) == dec_digits(v.tie_score as nat),
        digit_run_end(bs, off_ts(v)) == off_board(v) - 10,
        dec_val(bs.subrange(off_ts(v), off_board(v) - 10)) == v.tie_score,
        bs.subrange(off_board(v) - 10, off_board(v)) == char_bytes(",\"board\":["@),
        bs.subrange(off_board(v), off_board(v) + 17) == cells_bytes(v.board),
        bs.subrange(off_board(v) + 17, total_len(v)) == char_bytes("]}"@),
        is_dec_digit(bs[off_xs()]),
        is_dec_digit(bs[off_os(v)]),
        is_dec_digit(bs[off_ts(v)]),
        digit_run_end(bs, off_xs()) == off_xs() + 1 || bs[off_xs()] != 48,
        digit_run_end(bs, off_os(v)) == off_os(v) + 1 || bs[off_os(v)] != 48,
        digit_run_end(bs, off_ts(v)) == off_ts(v) + 1 || bs[off_ts(v)] != 48,
{
    reveal_strlit("{\"start_player\":\"");
    reveal_strlit("\",\"current_player\":\"");
    reveal_strlit("\",\"player_x_score\":");
    reveal_strlit(",\"player_o_score\":");
    reveal_strlit(",\"tie_score\":");
    reveal_strlit(",\"board\":[");
    reveal_strlit("]}");
    reveal_strlit("PlayerX");
    reveal_strlit("PlayerO");
    assert(("{\"start_player\":\""@).len() == 17);
    assert(("\",\"current_player\":\""@).len() == 20);
    assert(("\",\"player_x_score\":"@).len() == 19);
    assert((",\"player_o_score\":"@).len() == 18);
    assert((",\"tie_score\":"@).len() == 13);
    assert((",\"board\":["@).len() == 10);
    assert(("]}"@).len() == 2);
    assert(player_token(v.start_player).len() == 7);
    assert(player_token(v.current_player).len() == 7);
    lemma_dec_digits(v.player_x_score as nat);
    lemma_dec_digits(v.player_o_score as nat);
    lemma_dec_digits(v.tie_score as nat);
    lemma_cells_bytes(v.board);
    let dx = dec_digits(v.player_x_score as nat);
    let dd = dec_digits(v.player_o_score as nat);
    let dt = dec_digits(v.tie_score as nat);
    assert(bs.len() == total_len(v));
    assert(bs.subrange(0, 17) =~= char_bytes("{\"start_player\":\""@));
    assert(bs.subrange(17, 24) =~= char_bytes(player_token(v.start_player)));
    assert(bs.subrange(24, 44) =~= char_bytes("\",\"current_player\":\""@));
    assert(bs.subrange(44, 51) =~= char_bytes(player_token(v.current_player)));
    assert(bs.subrange(51, off_xs()) =~= char_bytes("\",\"player_x_score\":"@));
    assert(bs.subrange(off_xs(), off_os(v) - 18) =~= dx);
    assert(bs.subrange(off_os(v) - 18, off_os(v)) =~= char_bytes(",\"player_o_score\":"@));
    assert(bs.subrange(off_os(v), off_ts(v) - 13) =~= dd);
    assert(bs.subrange(off_ts(v) - 13, off_ts(v)) =~= char_bytes(",\"tie_score\":"@));
    assert(bs.subrange(off_ts(v), off_board(v) - 10) =~= dt);
    assert(bs.subrange(off_board(v) - 10, off_board(v)) =~= char_bytes(",\"board\":["@));
    assert(bs.subrange(off_board(v), off_board(v) + 17) =~= cells_bytes(v.board));
    assert(bs.subrange(off_board(v) + 17, total_len(v)) =~= char_bytes("]}"@));
    assert(char_bytes(",\"player_o_score\":"@)[0] == 44u8);
    assert(char_bytes(",\"tie_score\":"@)[0] == 44u8);
    assert(char_bytes(",\"board\":["@)[0] == 44u8);
    assert(bs[off_os(v) - 18] == 44u8);
    assert(bs[off_ts(v) - 13] == 44u8);
    assert(bs[off_board(v) - 10] == 44u8);
    assert forall|k: int| off_xs() <= k < off_os(v) - 18 implies is_dec_digit(#[trigger] bs[k]) by {
        assert(bs.subrange(off_xs(), off_os(v) - 18)[k - off_xs()] == bs[k]);
    }
    lemma_digit_run_end(bs, off_xs(), off_os(v) - 18);
    assert forall|k: int| off_os(v) <= k < off_ts(v) - 13 implies is_dec_digit(
        #[trigger] bs[k],
    ) by {
        assert(bs.subrange(off_os(v), off_ts(v) - 13)[k - off_os(v)] == bs[k]);
    }
    lemma_digit_run_end(bs, off_os(v), off_ts(v) - 13);
    assert forall|k: int| off_ts(v) <= k < off_board(v) - 10 implies is_dec_digit(
        #[trigger] bs[k],
    ) by {
        assert(bs.subrange(off_ts(v), off_board(v) - 10)[k - off_ts(v)] == bs[k]);
    }
    lemma_digit_run_end(bs, off_ts(v), off_board(v) - 10);
    assert(bs.subrange(off_xs(), off_os(v) - 18)[0] == bs[off_xs()]);
    assert(bs.subrange(off_os(v), off_ts(v) - 13)[0] == bs[off_os(v)]);
    assert(bs.subrange(off_ts(v), off_board(v) - 10)[0] == bs[off_ts(v)]);
    assert(is_dec_digit(dx[0]) && is_dec_digit(dd[0]) && is_dec_digit(dt[0]));
    assert(v.player_x_score == 0 ==> dx.len() == 1);
    assert(v.player_x_score > 0 ==> bs[off_xs()] != 48);
    assert(v.player_o_score == 0 ==> dd.len() == 1);
    assert(v.player_o_score > 0 ==> bs[off_os(v)] != 48);
    assert(v.tie_score == 0 ==> dt.len() == 1);
    assert(v.tie_score > 0 ==> bs[off_ts(v)] != 48);
}

/// Law: the stored form determines the snapshot.  Together with the
/// encoder's and decoder's contracts this gives the round trip: decoding
/// what the encoder produced yields the encoded snapshot, and no other.
pub proof fn lemma_json_bytes_injective(v1: StateView, v2: StateView)
    requires
        v1.wf(),
        v2.wf(),
        json_bytes(v1) == json_bytes(v2),
    ensures
        v1 == v2,
{
    let bs = json_bytes(v1);
    lemma_json_decomp(bs, v1);
    lemma_json_decomp(bs, v2);
    reveal_strlit("PlayerX");
    reveal_strlit("PlayerO");
    if v1.start_player != v2.start_player {
        assert(char_bytes(player_token(v1.start_player))[6] != char_bytes(
            player_token(v2.start_player),
        )[6]);
    }
    assert(v1.start_player == v2.start_player);
    assert(off_os(v1) == off_os(v2) && off_ts(v1) == off_ts(v2) && off_board(v1) == off_board(
        v2,
    )) by {
        assert(digit_run_end(bs, off_xs()) == off_os(v1) - 18);
        assert(digit_run_end(bs, off_xs()) == off_os(v2) - 18);
        assert(digit_run_end(bs, off_os(v1)) == off_ts(v1) - 13);
        assert(digit_run_end(bs, off_os(v2)) == off_ts(v2) - 13);
        assert(digit_run_end(bs, off_ts(v1)) == off_board(v1) - 10);
        assert(digit_run_end(bs, off_ts(v2)) == off_board(v2) - 10);
    }
    if v1.current_player != v2.current_player {
        assert(char_bytes(player_token(v1.current_player))[6] != char_bytes(
            player_token(v2.current_player),
        )[6]);
    }
    assert(v1.player_x_score == dec_val(bs.subrange(off_xs(), off_os(v1) - 18)));
    assert(v2.player_x_score == dec_val(bs.subrange(off_xs(), off_os(v2) - 18)));
    assert(v1.player_o_score == v2.player_o_score);
    assert(v1.tie_score == v2.tie_score);
    assert(cells_bytes(v1.board) == cells_bytes(v2.board));
    lemma_cells_bytes(v1.board);
    lemma_cells_bytes(v2.board);
    assert forall|j: int| 0 <= j < 9 implies v1.board[j] == v2.board[j] by {
        assert(cells_bytes(v1.board)[2 * j] == cell_byte(v1.board[j]));
        assert(cells_bytes(v2.board)[2 * j] == cell_byte(v2.board[j]));
    }
    assert(v1.board =~= v2.board);
}

/// Composing the segments back: bytes that decompose into the canonical
/// segments of a snapshot are exactly its stored form.
proof fn lemma_json_compose(bs: Seq<u8>, v: StateView)
    requires
        v.wf(),
        bs.len() == total_len(v),
        bs.subrange(0, 17) == char_bytes("{\"start_player\":\""@),
        bs.subrange(17, 24) == char_bytes(player_token(v.start_player)),
        bs.subrange(24, 44) == char_bytes("\",\"current_player\":\""@),
        bs.subrange(44, 51) == char_bytes(player_token(v.current_player)),
        bs.subrange(51, off_xs()) == char_bytes("\",\"player_x_score\":"@),
        bs.subrange(off_xs(), off_os(v) - 18) == dec_digits(v.player_x_score as nat),
        bs.subrange(off_os(v) - 18, off_os(v)) == char_bytes(",\"player_o_score\":"@),
        bs.subrange(off_os(v), off_ts(v) - 13) == dec_digits(v.player_o_score as nat),
        bs.subrange(off_ts(v) - 13, off_ts(v)) == char_bytes(",\"tie_score\":"@),
        bs.subrange(off_ts(v), off_board(v) - 10) == dec_digits(v.tie_score as nat),
        bs.subrange(off_board(v) - 10, off_board(v)) == char_bytes(",\"board\":["@),
        bs.subrange(off_board(v), off_board(v) + 17) == cells_bytes(v.board),
        bs.subrange(off_board(v) + 17, total_len(v)) == char_bytes("]}"@),
    ensures
        bs == json_bytes(v),
{
    reveal_strlit("{\"start_player\":\"");
    reveal_strlit("\",\"current_player\":\"");
    reveal_strlit("\",\"player_x_score\":");
    reveal_strlit(",\"player_o_score\":");
    reveal_strlit(",\"tie_score\":");
    reveal_strlit(",\"board\":[");
    reveal_strlit("]}");
    reveal_strlit("PlayerX");
    reveal_strlit("PlayerO");
    assert(player_token(v.start_player).len() == 7);
    assert(player_token(v.current_player).len() == 7);
    lemma_cells_bytes(v.board);
    assert(bs =~= json_bytes(v));
}

/// Decodes a snapshot from its canonical stored form.  Every record the
/// encoder emits is accepted and yields the encoded snapshot back, and a
/// record is accepted only when it is, byte for byte, the canonical stored
/// form of the snapshot it yields.
#[verifier::rlimit(100)]
#[verifier::spinoff_prover]
pub fn state_from_bytes(bytes: &Vec<u8>) -> (r: Option<MatchState>)
    ensures
        r matches Some(m) ==> m@.wf() && bytes@ == json_bytes(m@),
        forall|v: StateView|
            v.wf() && bytes@ == #[trigger] json_bytes(v) ==> (r matches Some(m) && m@ == v),
{
    proof {
        reveal_strlit("{\"start_player\":\"");
        reveal_strlit("\",\"current_player\":\"");
        reveal_strlit("\",\"player_x_score\":");
        reveal_strlit(",\"player_o_score\":");
        reveal_strlit(",\"tie_score\":");
        reveal_strlit(",\"board\":[");
        reveal_strlit("]}");
        assert(vstd::string::is_ascii("{\"start_player\":\""));
        assert(vstd::string::is_ascii("\",\"current_player\":\""));
        assert(vstd::string::is_ascii("\",\"player_x_score\":"));
        assert(vstd::string::is_ascii(",\"player_o_score\":"));
        assert(vstd::string::is_ascii(",\"tie_score\":"));
        assert(vstd::string::is_ascii(",\"board\":["));
        assert(vstd::string::is_ascii("]}"));
        assert(("{\"start_player\":\""@).len() == 17);
        assert(("\",\"current_player\":\""@).len() == 20);
        assert(("\",\"player_x_score\":"@).len() == 19);
        assert((",\"player_o_score\":"@).len() == 18);
        assert((",\"tie_score\":"@).len() == 13);
        assert((",\"board\":["@).len() == 10);
        assert(("]}"@).len() == 2);
    }
    let p1 = match expect_lit(bytes, 0, "{\"start_player\":\"") {
        Some(j) => j,
        None => {
            proof {
                assert forall|v: StateView|
                    v.wf() && bytes@ == #[trigger] json_bytes(v) implies false by {
                    lemma_json_decomp(bytes@, v);
                }
            }
            return None;
        },
    };
    let (start_player, p2) = match parse_player(bytes, p1) {
        Some(v) => v,
        None => {
            proof {
                assert forall|v: StateView|
                    v.wf() && bytes@ == #[trigger] json_bytes(v) implies false by {
                    lemma_json_decomp(bytes@, v);
                }
            }
            return None;
        },
    };
    let p3 = match expect_lit(bytes, p2, "\",\"current_player\":\"") {
        Some(j) => j,
        None => {
            proof {
                assert forall|v: StateView|
                    v.wf() && bytes@ == #[trigger] json_bytes(v) implies false by {
                    lemma_json_decomp(bytes@, v);
                }
            }
            return None;
        },
    };
    let (current_player, p4) = match parse_player(bytes, p3) {
        Some(v) => v,
        None => {
            proof {
                assert forall|v: StateView|
                    v.wf() && bytes@ == #[trigger] json_bytes(v) implies false by {
                    lemma_json_decomp(bytes@, v);
                }
            }
            return None;
        },
    };
    let p5 = match expect_lit(bytes, p4, "\",\"player_x_score\":") {
        Some(j) => j,
        None => {
            proof {
                assert forall|v: StateView|
                    v.wf() && bytes@ == #[trigger] json_bytes(v) implies false by {
                    lemma_json_decomp(bytes@, v);
                }
            }
            return None;
        },
    };
    let (player_x_score, p6) = match parse_dec(bytes, p5) {
        Some(v) => v,
        None => {
            proof {
                assert forall|v: StateView|
                    v.wf() && bytes@ == #[trigger] json_bytes(v) implies false by {
                    lemma_json_decomp(bytes@, v);
                }
            }
            return None;
        },
    };
    let p7 = match expect_lit(bytes, p6, ",\"player_o_score\":") {
        Some(j) => j,
        None => {
            proof {
                assert forall|v: StateView|
                    v.wf() && bytes@ == #[trigger] json_bytes(v) implies false by {
                    lemma_json_decomp(bytes@, v);
                }
            }
            return None;
        },
    };
    let (player_o_score, p8) = match parse_dec(bytes, p7) {
        Some(v) => v,
        None => {
            proof {
                assert forall|v: StateView|
                    v.wf() && bytes@ == #[trigger] json_bytes(v) implies false by {
                    lemma_json_decomp(bytes@, v);
                }
            }
            return None;
        },
    };
    let p9 = match expect_lit(bytes, p8, ",\"tie_score\":") {
        Some(j) => j,
        None => {
            proof {
                assert forall|v: StateView|
                    v.wf() && bytes@ == #[trigger] json_bytes(v) implies false by {
                    lemma_json_decomp(bytes@, v);
                }
            }
            return None;
        },
    };
    let (tie_score, p10) = match parse_dec(bytes, p9) {
        Some(v) => v,
        None => {
            proof {
                assert forall|v: StateView|
                    v.wf() && bytes@ == #[trigger] json_bytes(v) implies false by {
                    lemma_json_decomp(bytes@, v);
                }
            }
            return None;
        },
    };
    let p11 = match expect_lit(bytes, p10, ",\"board\":[") {
        Some(j) => j,
        None => {
            proof {
                assert forall|v: StateView|
                    v.wf() && bytes@ == #[trigger] json_bytes(v) implies false by {
                    lemma_json_decomp(bytes@, v);
                }
            }
            return None;
        },
    };
    let (board, p12) = match parse_cells(bytes, p11) {
        Some(v) => v,
        None => {
            proof {
                assert forall|v: StateView|
                    v.wf() && bytes@ == #[trigger] json_bytes(v) implies false by {
                    lemma_json_decomp(bytes@, v);
                }
            }
            return None;
        },
    };
    let p13 = match expect_lit(bytes, p12, "]}") {
        Some(j) => j,
        None => {
            proof {
                assert forall|v: StateView|
                    v.wf() && bytes@ == #[trigger] json_bytes(v) implies false by {
                    lemma_json_decomp(bytes@, v);
                }
            }
            return None;
        },
    };
    if p13 != bytes.len() {
        proof {
            assert forall|v: StateView|
                v.wf() && bytes@ == #[trigger] json_bytes(v) implies false by {
                lemma_json_decomp(bytes@, v);
            }
        }
        return None;
    }
    proof {
        assert forall|v: StateView|
            v.wf() && bytes@ == #[trigger] json_bytes(v) implies (start_player == v.start_player
                && current_player == v.current_player && player_x_score == v.player_x_score
                && player_o_score == v.player_o_score && tie_score == v.tie_score && board@
                == v.board) by {
            lemma_json_decomp(bytes@, v);
        }
        let mv = StateView {
            start_player,
            current_player,
            player_x_score,
            player_o_score,
            tie_score,
            board: board@,
        };
        assert(bytes@.subrange(p5 as int, p6 as int) == dec_digits(player_x_score as nat));
        assert(p6 - p5 == dec_digits(mv.player_x_score as nat).len()) by {
            assert(bytes@.subrange(p5 as int, p6 as int).len() == p6 - p5);
        }
        assert(bytes@.subrange(p7 as int, p8 as int) == dec_digits(player_o_score as nat));
        assert(p8 - p7 == dec_digits(mv.player_o_score as nat).len()) by {
            assert(bytes@.subrange(p7 as int, p8 as int).len() == p8 - p7);
        }
        assert(bytes@.subrange(p9 as int, p10 as int) == dec_digits(tie_score as nat));
        assert(p10 - p9 == dec_digits(mv.tie_score as nat).len()) by {
            assert(bytes@.subrange(p9 as int, p10 as int).len() == p10 - p9);
        }
        assert(p5 == off_xs());
        assert(p6 == off_os(mv) - 18 && p7 == off_os(mv));
        assert(p8 == off_ts(mv) - 13 && p9 == off_ts(mv));
        assert(p10 == off_board(mv) - 10 && p11 == off_board(mv));
        assert(p12 == off_board(mv) + 17 && p13 == total_len(mv));
        lemma_json_compose(bytes@, mv);
    }
    Some(
        MatchState {
            start_player,
            current_player,
            player_x_score,
            player_o_score,
            tie_score,
            board,
        },
    )
}

} // verus!
