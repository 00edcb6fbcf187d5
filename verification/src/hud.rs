use vstd::prelude::*;

verus! {

/// The character of decimal digit `d`.
pub open spec fn digit_char(d: nat) -> char {
    (48 + d) as char
}

/// The decimal notation of `n`, without sign or leading zeros.
pub open spec fn decimal(n: nat) -> Seq<char>
    decreases n,
{
    if n < 10 {
        seq![digit_char(n)]
    } else {
        decimal(n / 10).push(digit_char(n % 10))
    }
}

/// The number that a string of decimal digits denotes, read in base 10 with
/// the most significant digit first.
pub open spec fn digits_value(s: Seq<char>) -> int
    decreases s.len(),
{
    if s.len() == 0 {
        0
    } else {
        digits_value(s.drop_last()) * 10 + (s.last() as int - 48)
    }
}

/// Every character is one of `'0'` to `'9'`.
pub open spec fn all_digits(s: Seq<char>) -> bool {
    forall|i: int| 0 <= i < s.len() ==> '0' <= #[trigger] s[i] <= '9'
}

/// `decimal(n)` is the standard base-10 notation of `n`: a non-empty string
/// of digits whose value is `n`, with no leading zero except for `n == 0`
/// itself, and one digit longer exactly when `n` is ten times larger.
pub proof fn lemma_decimal_is_base_ten(n: nat)
    ensures
        decimal(n).len() > 0,
        all_digits(decimal(n)),
        digits_value(decimal(n)) == n,
        decimal(n)[0] == '0' <==> n == 0,
        n < 10 ==> decimal(n).len() == 1,
        n >= 10 ==> decimal(n).len() == decimal(n / 10).len() + 1,
    decreases n,
{
    if n >= 10 {
        lemma_decimal_is_base_ten(n / 10);
        let d = decimal(n / 10);
        assert(decimal(n).drop_last() =~= d);
        assert(decimal(n)[0] == d[0]);
        assert((n / 10) * 10 + n % 10 == n) by (nonlinear_arith);
        assert(digit_char(n % 10) as int == 48 + n % 10);
        assert(decimal(n).last() == digit_char(n % 10));
        assert(digits_value(decimal(n)) == digits_value(d) * 10 + (decimal(n).last() as int - 48));
        assert(digits_value(d) * 10 == (n / 10) * 10);
    } else {
        assert(decimal(n).drop_last() =~= Seq::<char>::empty());
        assert(digit_char(n) as int == 48 + n);
        assert(digits_value(decimal(n).drop_last()) == 0);
        assert(decimal(n).last() == digit_char(n));
    }
}

/// The one-character string of decimal digit `d`.
fn digit_str(d: u64) -> (s: &'static str)
    requires
        d < 10,
    ensures
        s@ == seq![digit_char(d as nat)],
{
    match d {
        0 => {
            proof { reveal_strlit("0"); }
            "0"
        },
        1 => {
            proof { reveal_strlit("1"); }
            "1"
        },
        2 => {
            proof { reveal_strlit("2"); }
            "2"
        },
        3 => {
            proof { reveal_strlit("3"); }
            "3"
        },
        4 => {
            proof { reveal_strlit("4"); }
            "4"
        },
        5 => {
            proof { reveal_strlit("5"); }
            "5"
        },
        6 => {
            proof { reveal_strlit("6"); }
            "6"
        },
        7 => {
            proof { reveal_strlit("7"); }
            "7"
        },
        8 => {
            proof { reveal_strlit("8"); }
            "8"
        },
        _ => {
            proof { reveal_strlit("9"); }
            "9"
        },
    }
}

/// Writes `n` in decimal.
pub fn decimal_string(n: u64) -> (s: String)
    ensures
        s@ == decimal(n as nat),
        all_digits(s@),
        digits_value(s@) == n,
        s@.len() > 0,
        s@[0] == '0' <==> n == 0,
    decreases n,
{
    proof {
        lemma_decimal_is_base_ten(n as nat);
    }
    if n < 10 {
        String::from_str(digit_str(n))
    } else {
        let mut s = decimal_string(n / 10);
        s.append(digit_str(n % 10));
        s
    }
}

/// The status line of the client that steers the carrier.
pub open spec fn active_status() -> Seq<char> {
    "ACTIVE PLAYER (WASD to move, Mouse to direct swarm)"@
}

/// The status line of a spectator while player `active` steers.
pub open spec fn spectating_status(active: u64) -> Seq<char> {
    "SPECTATING (Player "@ + decimal(active as nat) + " is active)"@
}

/// The texts of a client's status display.
pub struct HudText {
    /// "Wave: " and the wave number.
    pub wave_text: String,
    /// "Score: " and the points.
    pub score_text: String,
    /// Whether this client steers the carrier.
    pub is_active: bool,
    /// What this client is doing: steering, or watching whom.
    pub status_text: String,
    /// The style of the status line: highlighted while steering.
    pub status_style: String,
}

/// The status display of a client whose own player id is `own_player_id`
/// (none until the server has told it), for a game in wave `wave` with
/// `score` points in which player `active_player_id` steers the carrier.
pub fn hud_text(wave: u32, score: u64, active_player_id: u64, own_player_id: Option<u64>) -> (hud:
    HudText)
    ensures
        hud.wave_text@ == "Wave: "@ + decimal(wave as nat),
        hud.score_text@ == "Score: "@ + decimal(score as nat),
        hud.is_active == (own_player_id == Some(active_player_id)),
        hud.status_text@ == (if hud.is_active {
            active_status()
        } else {
            spectating_status(active_player_id)
        }),
        hud.status_style@ == (if hud.is_active {
            "color: #00ffaa; font-weight: bold;"@
        } else {
            "color: #aaa;"@
        }),
{
    let mut wave_text = String::from_str("Wave: ");
    let wave_digits = decimal_string(wave as u64);
    wave_text.append(wave_digits.as_str());

    let mut score_text = String::from_str("Score: ");
    let score_digits = decimal_string(score);
    score_text.append(score_digits.as_str());

    let is_active = match own_player_id {
        Some(id) => id == active_player_id,
        None => false,
    };

    let (status_text, status_style) = if is_active {
        (
            String::from_str("ACTIVE PLAYER (WASD to move, Mouse to direct swarm)"),
            String::from_str("color: #00ffaa; font-weight: bold;"),
        )
    } else {
        let mut text = String::from_str("SPECTATING (Player ");
        let digits = decimal_string(active_player_id);
        text.append(digits.as_str());
        text.append(" is active)");
        (text, String::from_str("color: #aaa;"))
    };
    HudText { wave_text, score_text, is_active, status_text, status_style }
}

} // verus!
