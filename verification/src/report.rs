//! Rendering of the human-readable match report.
//!
//! The report is a pure projection of the match: a fixed introductory line,
//! a three-column score table, a one-line turn indicator, and the engine's
//! preformatted rendering of the board.

use vstd::prelude::*;
use vstd::string::StringSliceAdditionalSpecFns;
use crate::codec::{char_bytes, player_token};
use crate::digits::dec_digits;
use crate::game::{MatchState, StateView};

verus! {

/// The report up to, but not including, the board rendering.
pub open spec fn report_head(v: StateView) -> Seq<u8> {
    char_bytes(
        ":x::o: Tic-Tac-Toe played indefinitely by github action runners! See [my workflow](.github/workflows/play.yaml).\n\n"@,
    ) + char_bytes("|PlayerX wins|PlayerO wins|Ties|\n|-|-|-|\n|"@) + dec_digits(
        v.player_x_score as nat,
    ) + char_bytes("|"@) + dec_digits(v.player_o_score as nat) + char_bytes("|"@) + dec_digits(
        v.tie_score as nat,
    ) + char_bytes("|\n\n"@) + char_bytes(player_token(v.current_player)) + char_bytes(
        "'s turn.\n\n<pre>\n"@,
    )
}

/// The full report: the head, the board rendering, and the closing tag.
pub open spec fn report_bytes(v: StateView, board: Seq<u8>) -> Seq<u8> {
    report_head(v) + board + char_bytes("</pre>"@)
}

/// Renders the report for a snapshot and a preformatted board rendering.
pub fn markdown_report(state: &MatchState, board_text: &str) -> (r: Vec<u8>)
    ensures
        r@ == report_bytes(state@, board_text.spec_bytes()),
{
    proof {
        reveal_strlit(
            ":x::o: Tic-Tac-Toe played indefinitely by github action runners! See [my workflow](.github/workflows/play.yaml).\n\n",
        );
        reveal_strlit("|PlayerX wins|PlayerO wins|Ties|\n|-|-|-|\n|");
        reveal_strlit("|");
        reveal_strlit("|\n\n");
        reveal_strlit("'s turn.\n\n<pre>\n");
        reveal_strlit("</pre>");
        assert(vstd::string::is_ascii(
            ":x::o: Tic-Tac-Toe played indefinitely by github action runners! See [my workflow](.github/workflows/play.yaml).\n\n",
        ));
        assert(vstd::string::is_ascii("|PlayerX wins|PlayerO wins|Ties|\n|-|-|-|\n|"));
        assert(vstd::string::is_ascii("|"));
        assert(vstd::string::is_ascii("|\n\n"));
        assert(vstd::string::is_ascii("'s turn.\n\n<pre>\n"));
        assert(vstd::string::is_ascii("</pre>"));
    }
    let mut out: Vec<u8> = Vec::new();
    crate::codec::push_lit(
        &mut out,
        ":x::o: Tic-Tac-Toe played indefinitely by github action runners! See [my workflow](.github/workflows/play.yaml).\n\n",
    );
    crate::codec::push_lit(&mut out, "|PlayerX wins|PlayerO wins|Ties|\n|-|-|-|\n|");
    crate::digits::push_dec(&mut out, state.player_x_score);
    crate::codec::push_lit(&mut out, "|");
    crate::digits::push_dec(&mut out, state.player_o_score);
    crate::codec::push_lit(&mut out, "|");
    crate::digits::push_dec(&mut out, state.tie_score);
    crate::codec::push_lit(&mut out, "|\n\n");
    crate::codec::push_player(&mut out, state.current_player);
    crate::codec::push_lit(&mut out, "'s turn.\n\n<pre>\n");
    let bb = board_text.as_bytes();
    out.extend_from_slice(bb);
    crate::codec::push_lit(&mut out, "</pre>");
    proof {
        assert(out@ =~= report_bytes(state@, board_text.spec_bytes()));
    }
    out
}

} // verus!
