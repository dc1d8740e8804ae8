//! Short texts the editor shows: how long ago a session changed, a
//! session's line in the list, the status after opening and saving, and
//! which form a message's time takes.

use vstd::prelude::*;
use crate::calendar::{is_date_of_day, epoch_to_ymd, lemma_date_determined_by_day_count};
use crate::convs::ConversationInfo;
use crate::session::Session;
use crate::json::same_text;
use crate::text::{decimal, zero_padded, push_str, push_decimal, push_padded, string_from_chars};

verus! {

pub open spec fn nanos_per_sec() -> int {
    1_000_000_000
}

/// The date of day `z` counted from 1970-01-01 (there is exactly one, see
/// `lemma_date_determined_by_day_count`).
pub open spec fn civil_date(z: int) -> (int, int, int) {
    choose|ymd: (int, int, int)| is_date_of_day(z, ymd.0, ymd.1, ymd.2)
}

/// `{:0width}` of a signed number: a `-` in front of a negative number,
/// and zeros between sign and digits up to `width` characters in all.
pub open spec fn signed_padded(n: int, width: nat) -> Seq<char> {
    if n >= 0 {
        zero_padded(decimal(n as nat), width)
    } else {
        seq!['-'] + zero_padded(decimal((-n) as nat), if width > 0 { (width - 1) as nat } else { 0 })
    }
}

/// Whole seconds from `t` to `now` (nanoseconds since the epoch), as
/// `Duration::as_secs` and `saturating_sub` give them; a clock before the
/// epoch counts as the epoch.
pub open spec fn seconds_ago(t: int, now: int) -> int {
    let now_s = if now >= 0 { now / nanos_per_sec() } else { 0 };
    let t_s = t / nanos_per_sec();
    if now_s >= t_s { now_s - t_s } else { 0 }
}

/// How the list shows the time `t` at time `now`: a dash before the epoch,
/// "N seconds / minutes / hours / days ago" up to 30 days, and the date
/// `dd.mm.yyyy` after that.
pub open spec fn time_label(t: int, now: int) -> Seq<char> {
    if t < 0 {
        "—"@
    } else {
        let ago = seconds_ago(t, now);
        if ago < 60 {
            decimal(ago as nat) + "с назад"@
        } else if ago < 3600 {
            decimal((ago / 60) as nat) + "мин назад"@
        } else if ago < 86400 {
            decimal((ago / 3600) as nat) + "ч назад"@
        } else if ago / 86400 < 30 {
            decimal((ago / 86400) as nat) + "д назад"@
        } else {
            let date = civil_date(t / nanos_per_sec() / 86400);
            zero_padded(decimal(date.2 as nat), 2) + "."@ + zero_padded(decimal(date.1 as nat), 2) + "."@
                + signed_padded((date.0 as i32) as int, 4)
        }
    }
}

proof fn lemma_whole_units(ago: int, unit: int)
    requires
        0 <= ago,
        0 < unit,
    ensures
        (ago / unit) * unit <= ago < (ago / unit + 1) * unit,
        ago / unit >= 0,
{
    vstd::arithmetic::div_mod::lemma_fundamental_div_mod(ago, unit);
    vstd::arithmetic::div_mod::lemma_mod_bound(ago, unit);
    vstd::arithmetic::div_mod::lemma_div_pos_is_pos(ago, unit);
    let q = ago / unit;
    let r = ago % unit;
    assert(q * unit <= ago < (q + 1) * unit) by (nonlinear_arith)
        requires
            ago == unit * q + r,
            0 <= r < unit,
    ;
}

/// How long ago the list says a session changed. With `ago` the whole
/// seconds from `t` to `now` (a clock before the epoch counting as the
/// epoch, and never negative), the label is `ago` seconds below a minute,
/// the whole minutes `n` (`60n <= ago < 60(n + 1)`) below an hour, the whole
/// hours below a day, and the whole days below 30 days.
pub proof fn lemma_time_label_units(t: int, now: int)
    requires
        t >= 0,
    ensures
        ({
            let now_s = if now >= 0 { now / 1_000_000_000 } else { 0 };
            let t_s = t / 1_000_000_000;
            let ago = if now_s >= t_s { now_s - t_s } else { 0 };
            &&& ago < 60 ==> time_label(t, now) == decimal(ago as nat) + "с назад"@
            &&& 60 <= ago < 3600 ==> exists|n: nat| #![trigger decimal(n)]
                n * 60 <= ago < (n + 1) * 60 && time_label(t, now) == decimal(n) + "мин назад"@
            &&& 3600 <= ago < 86400 ==> exists|n: nat| #![trigger decimal(n)]
                n * 3600 <= ago < (n + 1) * 3600 && time_label(t, now) == decimal(n) + "ч назад"@
            &&& 86400 <= ago < 30 * 86400 ==> exists|n: nat| #![trigger decimal(n)]
                n * 86400 <= ago < (n + 1) * 86400 && time_label(t, now) == decimal(n) + "д назад"@
        }),
{
    let now_s = if now >= 0 { now / 1_000_000_000 } else { 0 };
    let t_s = t / 1_000_000_000;
    let ago = if now_s >= t_s { now_s - t_s } else { 0 };
    assert(ago == seconds_ago(t, now));
    lemma_whole_units(ago, 60);
    lemma_whole_units(ago, 3600);
    lemma_whole_units(ago, 86400);
    if 60 <= ago < 3600 {
        let n = (ago / 60) as nat;
        assert(n * 60 <= ago < (n + 1) * 60 && time_label(t, now) == decimal(n) + "мин назад"@);
    }
    if 3600 <= ago < 86400 {
        let n = (ago / 3600) as nat;
        assert(n * 3600 <= ago < (n + 1) * 3600 && time_label(t, now) == decimal(n) + "ч назад"@);
    }
    if 86400 <= ago < 30 * 86400 {
        let n = (ago / 86400) as nat;
        assert(ago / 86400 < 30);
        assert(n * 86400 <= ago < (n + 1) * 86400 && time_label(t, now) == decimal(n) + "д назад"@);
    }
}

/// Appends `n` as `{:0width}` writes it.
fn push_signed_padded(out: &mut Vec<char>, n: i32, width: usize)
    ensures
        final(out)@ == old(out)@ + signed_padded(n as int, width as nat),
{
    if n >= 0 {
        push_padded(out, n as u64, width);
    } else {
        out.push('-');
        let m: u64 = if n == i32::MIN { 2147483648u64 } else { (-n) as u64 };
        let w = if width > 0 { width - 1 } else { 0 };
        push_padded(out, m, w);
        assert(out@ =~= old(out)@ + signed_padded(n as int, width as nat));
    }
}

/// The list's time for a session last changed at `t`, seen at `now` (both
/// in nanoseconds since the Unix epoch). Both come from a system clock, so
/// their whole seconds fit in `u64`.
pub fn format_time(t: i128, now: i128) -> (r: String)
    requires
        t < 18446744073709551616 * 1_000_000_000,
        now < 18446744073709551616 * 1_000_000_000,
    ensures
        r@ == time_label(t as int, now as int),
{
    let mut out: Vec<char> = Vec::new();
    if t < 0 {
        push_str(&mut out, "—");
        return string_from_chars(&out);
    }
    let t_s = (t / 1_000_000_000) as u64;
    let now_s: u64 = if now >= 0 { (now / 1_000_000_000) as u64 } else { 0 };
    let ago: u64 = if now_s >= t_s { now_s - t_s } else { 0 };
    assert(ago == seconds_ago(t as int, now as int));
    if ago < 60 {
        push_decimal(&mut out, ago);
        push_str(&mut out, "с назад");
    } else if ago < 3600 {
        push_decimal(&mut out, ago / 60);
        push_str(&mut out, "мин назад");
    } else if ago < 86400 {
        push_decimal(&mut out, ago / 3600);
        push_str(&mut out, "ч назад");
    } else if ago / 86400 < 30 {
        push_decimal(&mut out, ago / 86400);
        push_str(&mut out, "д назад");
    } else {
        let (y, m, d) = epoch_to_ymd(t_s);
        proof {
            let z = (t_s / 86400) as int;
            let yy = choose|yy: int| #[trigger] is_date_of_day(z, yy, m as int, d as int) && y == #[verifier::truncate] (yy as i32);
            let w = (yy, m as int, d as int);
            assert(is_date_of_day(z, w.0, w.1, w.2));
            let date = civil_date(z);
            assert(is_date_of_day(z, date.0, date.1, date.2));
            lemma_date_determined_by_day_count(yy, m as int, d as int, date.0, date.1, date.2);
        }
        push_padded(&mut out, d as u64, 2);
        push_str(&mut out, ".");
        push_padded(&mut out, m as u64, 2);
        push_str(&mut out, ".");
        push_signed_padded(&mut out, y, 4);
    }
    string_from_chars(&out)
}

/// A session's line under its title: message count, branch (a dash when
/// there is none) and the time of its last change.
pub fn conv_meta(c: &ConversationInfo, now: i128) -> (r: String)
    requires
        c.modified < 18446744073709551616 * 1_000_000_000,
        now < 18446744073709551616 * 1_000_000_000,
    ensures
        r@ == decimal(c@.message_count) + " сообщ. · "@ + (match c@.branch { Some(b) => b, None => "—"@ })
            + " · "@ + time_label(c@.modified, now as int),
{
    let mut out: Vec<char> = Vec::new();
    push_decimal(&mut out, c.message_count as u64);
    push_str(&mut out, " сообщ. · ");
    match &c.branch {
        Some(b) => push_str(&mut out, b.as_str()),
        None => push_str(&mut out, "—"),
    }
    push_str(&mut out, " · ");
    let t = format_time(c.modified, now);
    push_str(&mut out, t.as_str());
    string_from_chars(&out)
}

/// Status after a file is opened.
pub fn opened_status(filename: &str, messages: usize) -> (r: String)
    ensures
        r@ == "Открыт "@ + filename@ + " — "@ + decimal(messages as nat) + " сообщ."@,
{
    let mut out: Vec<char> = Vec::new();
    push_str(&mut out, "Открыт ");
    push_str(&mut out, filename);
    push_str(&mut out, " — ");
    push_decimal(&mut out, messages as u64);
    push_str(&mut out, " сообщ.");
    string_from_chars(&out)
}

/// Status after a file is saved.
pub fn saved_status(filename: &str) -> (r: String)
    ensures
        r@ == "Сохранено: "@ + filename@,
{
    let mut out: Vec<char> = Vec::new();
    push_str(&mut out, "Сохранено: ");
    push_str(&mut out, filename);
    string_from_chars(&out)
}

/// The name over a message: `BRIM` for the user, `attachment` for an
/// attachment record, `ALICE` for the assistant.
pub fn role_label(role: &str) -> (r: String)
    ensures
        r@ == (if role@ == "user"@ { "BRIM"@ } else if role@ == "attachment"@ { "attachment"@ } else { "ALICE"@ }),
{
    let mut out: Vec<char> = Vec::new();
    if same_text(role, "user") {
        push_str(&mut out, "BRIM");
    } else if same_text(role, "attachment") {
        push_str(&mut out, "attachment");
    } else {
        push_str(&mut out, "ALICE");
    }
    string_from_chars(&out)
}

// ---------- message times ----------

/// Which form a message's short time takes.
#[derive(PartialEq, Eq, Structural, Clone, Copy, Debug)]
pub enum TimeStyle {
    /// `HH:MM:SS`: the message is from today.
    Today,
    /// `вчера HH:MM`: from yesterday.
    Yesterday,
    /// `dd.mm HH:MM`: from earlier this year.
    ThisYear,
    /// `dd.mm.YYYY HH:MM`: from another year.
    Older,
}

/// The form for a message dated `date` (local year, month, day), seen on
/// `today`, the day after `yesterday`.
pub open spec fn time_style(date: (i32, u32, u32), today: (i32, u32, u32), yesterday: (i32, u32, u32)) -> TimeStyle {
    if date == today {
        TimeStyle::Today
    } else if date == yesterday {
        TimeStyle::Yesterday
    } else if date.0 == today.0 {
        TimeStyle::ThisYear
    } else {
        TimeStyle::Older
    }
}

pub fn msg_time_style(date: (i32, u32, u32), today: (i32, u32, u32), yesterday: (i32, u32, u32)) -> (r: TimeStyle)
    ensures
        r == time_style(date, today, yesterday),
{
    if date.0 == today.0 && date.1 == today.1 && date.2 == today.2 {
        TimeStyle::Today
    } else if date.0 == yesterday.0 && date.1 == yesterday.1 && date.2 == yesterday.2 {
        TimeStyle::Yesterday
    } else if date.0 == today.0 {
        TimeStyle::ThisYear
    } else {
        TimeStyle::Older
    }
}

// ---------- reloading ----------

impl Session {
    /// Whether a change of the file on disk may replace what is shown: only
    /// when nothing is unsaved and no message is being edited.
    pub fn may_reload(&self) -> (r: bool)
        ensures
            r == (!self.dirty && forall|i: int| 0 <= i < self.messages.len() ==> !(#[trigger] self.messages@[i]).editing),
    {
        if self.dirty {
            return false;
        }
        let mut i: usize = 0;
        while i < self.messages.len()
            invariant
                i <= self.messages.len(),
                forall|k: int| 0 <= k < i ==> !(#[trigger] self.messages@[k]).editing,
            decreases self.messages.len() - i,
        {
            if self.messages[i].editing {
                return false;
            }
            i = i + 1;
        }
        true
    }
}

} // verus!
