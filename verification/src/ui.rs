//! The smaller decisions of the user interface: relative times, the text
//! speed presets, stored settings, scroll positions, sign-in messages,
//! the mascot's art, searches and the lists the settings page shows.

use vstd::prelude::*;
use crate::models::{opt_view, strs_view, Preset, Tag};
use crate::text::{
    bool_text, contains, contains_exec, digit_char, from_chars, is_ws, is_whitespace, nat_decimal, push_all,
    push_bool, push_decimal,
    push_i64_decimal, int_decimal, to_chars, chars_eq, slice_vec,
};
use crate::outside::{to_lowercase, to_uppercase, unicode_lowercase, unicode_uppercase};
use vstd::utf8::encode_utf8;

verus! {

// ---------------------------------------------------------------------------
// relative times
// ---------------------------------------------------------------------------

/// How long ago `ts` was, seen at `now` (both in seconds): `just now`
/// under a minute, then whole minutes, hours, days (under 30) and months
/// of 30 days, as `5m ago`, `3h ago`, `2d ago`, `4mo ago`. A time in the
/// future counts as now.
pub open spec fn spec_format_relative(now: i64, ts: i64) -> Seq<char> {
    let secs = if now - ts > 0 {
        now - ts
    } else {
        0
    };
    if secs < 60 {
        "just now"@
    } else if secs / 60 < 60 {
        nat_decimal((secs / 60) as nat) + "m ago"@
    } else if secs / 3600 < 24 {
        nat_decimal((secs / 3600) as nat) + "h ago"@
    } else if secs / 86400 < 30 {
        nat_decimal((secs / 86400) as nat) + "d ago"@
    } else {
        nat_decimal((secs / 86400 / 30) as nat) + "mo ago"@
    }
}

/// How long ago a chat was active, for the chat list.
pub fn format_relative(now: i64, ts: i64) -> (r: String)
    requires
        i64::MIN <= now - ts <= i64::MAX,
    ensures
        r@ == spec_format_relative(now, ts),
{
    let d = now - ts;
    let secs: u64 = if d > 0 {
        d as u64
    } else {
        0
    };
    if secs < 60 {
        return "just now".to_string();
    }
    let mins = secs / 60;
    let mut out: Vec<char> = Vec::new();
    if mins < 60 {
        push_decimal(&mut out, mins);
        push_all(&mut out, &to_chars("m ago"));
        return from_chars(&out);
    }
    let hrs = mins / 60;
    proof {
        assert(hrs == secs / 3600) by (nonlinear_arith)
            requires
                hrs == mins / 60,
                mins == secs / 60,
        ;
    }
    if hrs < 24 {
        push_decimal(&mut out, hrs);
        push_all(&mut out, &to_chars("h ago"));
        return from_chars(&out);
    }
    let days = hrs / 24;
    proof {
        assert(days == secs / 86400) by (nonlinear_arith)
            requires
                days == hrs / 24,
                hrs == secs / 3600,
        ;
    }
    if days < 30 {
        push_decimal(&mut out, days);
        push_all(&mut out, &to_chars("d ago"));
        return from_chars(&out);
    }
    push_decimal(&mut out, days / 30);
    push_all(&mut out, &to_chars("mo ago"));
    from_chars(&out)
}

/// How long ago a time was, in the largest whole unit that fits: under a
/// minute is "just now"; then whole minutes below an hour, whole hours
/// below a day, whole days below thirty days, and whole months of thirty
/// days beyond. A time in the future counts as now.
pub proof fn law_relative_time_units(now: i64, ts: i64)
    ensures
        ({
            let age: int = if now - ts > 0 { now - ts } else { 0 };
            let r = spec_format_relative(now, ts);
            &&& age < 60 ==> r == "just now"@
            &&& 60 <= age < 3600 ==> r == nat_decimal((age / 60) as nat) + "m ago"@
            &&& 3600 <= age < 86400 ==> r == nat_decimal((age / 3600) as nat) + "h ago"@
            &&& 86400 <= age < 2592000 ==> r == nat_decimal((age / 86400) as nat) + "d ago"@
            &&& 2592000 <= age ==> r == nat_decimal((age / 2592000) as nat) + "mo ago"@
        }),
{
    let age: int = if now - ts > 0 { now - ts } else { 0 };
    assert(60 <= age < 3600 ==> age / 60 < 60);
    assert(3600 <= age ==> age / 60 >= 60);
    assert(3600 <= age < 86400 ==> age / 3600 < 24);
    assert(86400 <= age ==> age / 3600 >= 24);
    assert(86400 <= age < 2592000 ==> age / 86400 < 30);
    assert(2592000 <= age ==> age / 86400 >= 30);
    assert(age >= 0 ==> age / 86400 / 30 == age / 2592000) by (nonlinear_arith);
}

// ---------------------------------------------------------------------------
// text speed
// ---------------------------------------------------------------------------

/// The text speed presets, in characters per second: off, slow, normal, fast.
pub open spec fn speed_presets() -> Seq<u32> {
    seq![0, 20, 40, 80]
}

/// The distance between a preset and a speed.
pub open spec fn speed_distance(preset: u32, speed: u32) -> int {
    if preset >= speed {
        preset - speed
    } else {
        speed - preset
    }
}

/// The preset closest to `speed`, the first of equally close ones.
pub open spec fn spec_speed_to_preset_index(speed: u32) -> nat {
    let p = speed_presets();
    let best01: nat = if speed_distance(p[1], speed) < speed_distance(p[0], speed) {
        1
    } else {
        0
    };
    let best012: nat = if speed_distance(p[2], speed) < speed_distance(p[best01 as int], speed) {
        2
    } else {
        best01
    };
    if speed_distance(p[3], speed) < speed_distance(p[best012 as int], speed) {
        3
    } else {
        best012
    }
}

fn distance(preset: u32, speed: u32) -> (r: u32)
    ensures
        r as int == speed_distance(preset, speed),
{
    if preset >= speed {
        preset - speed
    } else {
        speed - preset
    }
}

/// The preset to show as selected for a stored speed: the closest one.
pub fn speed_to_preset_index(speed: u32) -> (r: usize)
    ensures
        r as nat == spec_speed_to_preset_index(speed),
        r < 4,
{
    let presets: [u32; 4] = [0, 20, 40, 80];
    proof {
        assert(presets@ =~= speed_presets());
    }
    let mut best: usize = 0;
    let mut best_d = distance(presets[0], speed);
    let mut i: usize = 1;
    while i < 4
        invariant
            1 <= i <= 4,
            best < i,
            presets@ == speed_presets(),
            best_d as int == speed_distance(presets@[best as int], speed),
            i == 2 ==> best as nat == (if speed_distance(speed_presets()[1], speed) < speed_distance(
                speed_presets()[0],
                speed,
            ) {
                1nat
            } else {
                0nat
            }),
            i == 3 ==> best as nat == ({
                let p = speed_presets();
                let best01: nat = if speed_distance(p[1], speed) < speed_distance(p[0], speed) {
                    1
                } else {
                    0
                };
                if speed_distance(p[2], speed) < speed_distance(p[best01 as int], speed) {
                    2
                } else {
                    best01
                }
            }),
            i == 4 ==> best as nat == spec_speed_to_preset_index(speed),
        decreases 4 - i,
    {
        let d = distance(presets[i], speed);
        if d < best_d {
            best = i;
            best_d = d;
        }
        i = i + 1;
    }
    best
}

/// The speed of the preset at `index`, an index past the end meaning the last.
pub fn preset_speed(index: usize) -> (r: u32)
    ensures
        r == speed_presets()[if index < 4 {
            index as int
        } else {
            3
        }],
{
    let presets: [u32; 4] = [0, 20, 40, 80];
    proof {
        assert(presets@ =~= speed_presets());
    }
    let i = if index < 4 {
        index
    } else {
        3
    };
    presets[i]
}

/// The value of a string of ASCII digits.
pub open spec fn digits_value(ds: Seq<char>) -> nat
    decreases ds.len(),
{
    if ds.len() == 0 {
        0
    } else {
        digits_value(ds.drop_last()) * 10 + ((ds.last() as u32) - 48) as nat
    }
}

/// Every character is an ASCII digit.
pub open spec fn all_digits(ds: Seq<char>) -> bool {
    forall|i: int| 0 <= i < ds.len() ==> '0' <= #[trigger] ds[i] && ds[i] <= '9'
}

/// `s` read as a `u32` (std's `str::parse`): an optional `+`, then one or
/// more ASCII digits, the value at most `u32::MAX`.
pub open spec fn spec_parse_u32(s: Seq<char>) -> Option<u32> {
    let ds = if s.len() > 0 && s[0] == '+' {
        s.skip(1)
    } else {
        s
    };
    if ds.len() > 0 && all_digits(ds) && digits_value(ds) <= u32::MAX {
        Some(digits_value(ds) as u32)
    } else {
        None
    }
}

/// Reads a decimal `u32`.
pub fn parse_u32(s: &str) -> (r: Option<u32>)
    ensures
        r == spec_parse_u32(s@),
{
    let cs = to_chars(s);
    let start: usize = if cs.len() > 0 && cs[0] == '+' {
        1
    } else {
        0
    };
    let ghost ds = if s@.len() > 0 && s@[0] == '+' {
        s@.skip(1)
    } else {
        s@
    };
    proof {
        assert(cs@.skip(start as int) =~= ds);
    }
    if start >= cs.len() {
        return None;
    }
    let mut value: u64 = 0;
    let mut i: usize = start;
    while i < cs.len()
        invariant
            start <= i <= cs@.len(),
            cs@ == s@,
            ds == (if s@.len() > 0 && s@[0] == '+' {
                s@.skip(1)
            } else {
                s@
            }),
            ds.len() > 0,
            cs@.skip(start as int) == ds,
            all_digits(ds.take(i - start)),
            value == digits_value(ds.take(i - start)),
            value <= u32::MAX,
        decreases cs@.len() - i,
    {
        let c = cs[i];
        proof {
            assert(ds.take(i - start + 1).drop_last() =~= ds.take(i - start));
            assert(ds.take(i - start + 1).last() == c);
        }
        if c < '0' || c > '9' {
            proof {
                assert(ds[i - start] == c);
                assert(!all_digits(ds));
            }
            return None;
        }
        let d = ((c as u32) - 48) as u64;
        if value > (0xFFFF_FFFFu64 - d) / 10 {
            proof {
                assert(digits_value(ds.take(i - start + 1)) == value * 10 + d);
                assert(value * 10 + d > u32::MAX) by (nonlinear_arith)
                    requires
                        value > (0xFFFF_FFFFu64 - d) / 10,
                        d <= 9,
                ;
                lemma_digits_grow(ds, i - start + 1);
            }
            return None;
        }
        proof {
            assert(value * 10 + d <= u32::MAX) by (nonlinear_arith)
                requires
                    value <= (0xFFFF_FFFFu64 - d) / 10,
                    d <= 9,
            ;
        }
        value = value * 10 + d;
        proof {
            assert(all_digits(ds.take(i - start + 1)));
        }
        i = i + 1;
    }
    proof {
        assert(ds.take(i - start) =~= ds);
    }
    Some(value as u32)
}

proof fn lemma_digits_grow(ds: Seq<char>, k: int)
    requires
        0 <= k <= ds.len(),
        digits_value(ds.take(k)) > u32::MAX,
    ensures
        !(all_digits(ds) && digits_value(ds) <= u32::MAX),
    decreases ds.len() - k,
{
    if k < ds.len() {
        assert(ds.take(k + 1).drop_last() =~= ds.take(k));
        if all_digits(ds) {
            assert('0' <= ds[k] && ds[k] <= '9');
        }
        assert(digits_value(ds.take(k + 1)) >= digits_value(ds.take(k))) by {
            if all_digits(ds) {
                assert('0' <= ds.take(k + 1).last());
            }
        }
        if all_digits(ds) {
            lemma_digits_grow(ds, k + 1);
        } else {
        }
    } else {
        assert(ds.take(k) =~= ds);
    }
}

/// The text speed a stored value gives: the value read as a number, else 40.
pub fn stored_text_speed(stored: &Option<String>) -> (r: u32)
    ensures
        r == (match opt_view(*stored) {
            Some(s) => match spec_parse_u32(s) {
                Some(v) => v,
                None => 40,
            },
            None => 40,
        }),
{
    match stored {
        Some(s) => match parse_u32(s.as_str()) {
            Some(v) => v,
            None => 40,
        },
        None => 40,
    }
}

/// Whether the stored "subscription-only models" flag is set: exactly `true`.
pub fn stored_flag(stored: &Option<String>) -> (r: bool)
    ensures
        r == (opt_view(*stored) == Some("true"@)),
{
    match stored {
        Some(s) => {
            let t = to_chars("true");
            chars_eq(&to_chars(s.as_str()), &t)
        },
        None => false,
    }
}

/// What a text speed is stored as: its decimal digits.
pub fn text_speed_to_store(speed: u32) -> (r: String)
    ensures
        r@ == nat_decimal(speed as nat),
{
    let mut out: Vec<char> = Vec::new();
    push_decimal(&mut out, speed as u64);
    proof {
        assert(out@ =~= Seq::<char>::empty() + nat_decimal(speed as nat));
    }
    from_chars(&out)
}

/// What a flag is stored as: `true` or `false`.
pub fn flag_to_store(value: bool) -> (r: String)
    ensures
        r@ == bool_text(value),
{
    let mut out: Vec<char> = Vec::new();
    push_bool(&mut out, value);
    proof {
        assert(out@ =~= Seq::<char>::empty() + bool_text(value));
    }
    from_chars(&out)
}

/// The decimal digits of `n` read back as a number give `n`.
proof fn lemma_decimal_value(n: nat)
    ensures
        nat_decimal(n).len() > 0,
        all_digits(nat_decimal(n)),
        digits_value(nat_decimal(n)) == n,
    decreases n,
{
    if n < 10 {
        assert(digit_char(n) as u32 == 48 + n);
        let ds = nat_decimal(n);
        assert(ds.drop_last() =~= Seq::<char>::empty());
        assert(digits_value(ds.drop_last()) == 0);
        assert(ds.last() == digit_char(n));
        assert(digits_value(ds) == digits_value(ds.drop_last()) * 10 + ((ds.last() as u32) - 48) as nat);
    } else {
        lemma_decimal_value(n / 10);
        let init = nat_decimal(n / 10);
        let d = digit_char(n % 10);
        assert(nat_decimal(n) == init.push(d));
        assert(init.push(d).drop_last() =~= init);
        assert(d as u32 == 48 + n % 10);
        assert(n == (n / 10) * 10 + n % 10) by (nonlinear_arith);
        let ds = init.push(d);
        assert(digits_value(ds) == digits_value(ds.drop_last()) * 10 + ((ds.last() as u32) - 48) as nat);
        assert forall|i: int| 0 <= i < init.push(d).len() implies '0' <= #[trigger] init.push(d)[i] && init.push(d)[i] <= '9' by {
            if i < init.len() {
                assert(init.push(d)[i] == init[i]);
            }
        }
    }
}

/// A stored text speed reads back as the speed that was stored.
pub proof fn law_text_speed_reads_back(speed: u32)
    ensures
        spec_parse_u32(nat_decimal(speed as nat)) == Some(speed),
{
    lemma_decimal_value(speed as nat);
    let ds = nat_decimal(speed as nat);
    assert('0' <= ds[0] && ds[0] <= '9');
}

/// A stored flag reads back as the flag that was stored.
pub proof fn law_flag_reads_back(value: bool)
    ensures
        (bool_text(value) == "true"@) == value,
{
    reveal_strlit("true");
    if value {
        assert(bool_text(value) =~= "true"@);
    } else {
        assert(bool_text(value).len() != "true"@.len());
    }
}

// ---------------------------------------------------------------------------
// scrolling
// ---------------------------------------------------------------------------

/// Whether the view is scrolled to within 150 pixels of the bottom.
pub fn is_scrolled_to_bottom(scroll_top: i32, client_height: i32, scroll_height: i32) -> (r: bool)
    requires
        i32::MIN <= scroll_top + client_height <= i32::MAX,
        i32::MIN <= scroll_height - (scroll_top + client_height) <= i32::MAX,
    ensures
        r == (scroll_height - (scroll_top + client_height) < 150),
{
    scroll_height - (scroll_top + client_height) < 150
}

/// Whether an incoming delta should keep the view pinned: near the bottom,
/// or at the very top (before the page has any scroll range).
pub fn is_near_bottom(scroll_top: i32, client_height: i32, scroll_height: i32) -> (r: bool)
    requires
        i32::MIN <= scroll_top + client_height <= i32::MAX,
        i32::MIN <= scroll_height - (scroll_top + client_height) <= i32::MAX,
    ensures
        r == (scroll_height - (scroll_top + client_height) < 150 || scroll_top < 1),
{
    is_scrolled_to_bottom(scroll_top, client_height, scroll_height) || scroll_top < 1
}

// ---------------------------------------------------------------------------
// signing in
// ---------------------------------------------------------------------------

/// The error a failed registration shows, by the response's status.
pub open spec fn spec_register_error(status: u16) -> Seq<char> {
    if status == 409 {
        "username is already taken"@
    } else if status == 403 {
        "registration is disabled"@
    } else {
        "registration failed"@
    }
}

/// The error shown when registration is answered with a non-success status.
pub fn register_error(status: u16) -> (r: String)
    ensures
        r@ == spec_register_error(status),
{
    if status == 409 {
        "username is already taken".to_string()
    } else if status == 403 {
        "registration is disabled".to_string()
    } else {
        "registration failed".to_string()
    }
}

/// The error shown when signing in is refused.
pub fn login_error() -> (r: String)
    ensures
        r@ == "invalid username or password"@,
{
    "invalid username or password".to_string()
}

/// What is wrong with a registration form before it is sent: passwords
/// that differ, or a password of fewer than 4 bytes.
pub fn registration_form_error(password: &str, confirm: &str) -> (r: Option<String>)
    ensures
        opt_view(r) == (if password@ != confirm@ {
            Some("passwords don't match"@)
        } else if encode_utf8(password@).len() < 4 {
            Some("password must be at least 4 characters"@)
        } else {
            None
        }),
{
    let p = to_chars(password);
    let c = to_chars(confirm);
    if !chars_eq(&p, &c) {
        return Some("passwords don't match".to_string());
    }
    if password.as_bytes().len() < 4 {
        return Some("password must be at least 4 characters".to_string());
    }
    None
}

/// A form field's value as sent: `None` when empty (for an API key: keep
/// the stored one; for a character field: leave it unset).
pub fn non_empty_text(key: &String) -> (r: Option<String>)
    ensures
        opt_view(r) == (if key@.len() == 0 {
            None
        } else {
            Some(key@)
        }),
{
    if key.as_str().is_empty() {
        None
    } else {
        Some(key.clone())
    }
}

// ---------------------------------------------------------------------------
// the mascot
// ---------------------------------------------------------------------------

/// The moods of Aeth, the mascot.
#[derive(Clone, Copy, PartialEq, Eq, Structural, Debug)]
pub enum MascotState {
    Idle,
    Thinking,
    Error,
    Empty,
    Lost,
    Peek,
    PeekClicked,
}

/// The art file for each mood.
pub open spec fn spec_asset_name(s: MascotState) -> Seq<char> {
    match s {
        MascotState::Idle => "idle"@,
        MascotState::Thinking => "thinking"@,
        MascotState::Error => "error"@,
        MascotState::Empty => "empty"@,
        MascotState::Lost => "lost"@,
        MascotState::Peek => "peek"@,
        MascotState::PeekClicked => "peek-clicked"@,
    }
}

/// The version of the mascot art, part of its address so caches renew.
pub const MASCOT_ASSET_VERSION: u32 = 5;

impl MascotState {
    /// The name of the mood's art file.
    pub fn asset_name(&self) -> (r: &'static str)
        ensures
            r@ == spec_asset_name(*self),
    {
        match self {
            MascotState::Idle => "idle",
            MascotState::Thinking => "thinking",
            MascotState::Error => "error",
            MascotState::Empty => "empty",
            MascotState::Lost => "lost",
            MascotState::Peek => "peek",
            MascotState::PeekClicked => "peek-clicked",
        }
    }

    /// The address of the mood's art.
    pub fn asset_src(&self) -> (r: String)
        ensures
            r@ == "/assets/mascot/"@ + spec_asset_name(*self) + ".png?v="@ + nat_decimal(
                MASCOT_ASSET_VERSION as nat,
            ),
    {
        let mut out = to_chars("/assets/mascot/");
        push_all(&mut out, &to_chars(self.asset_name()));
        push_all(&mut out, &to_chars(".png?v="));
        push_decimal(&mut out, MASCOT_ASSET_VERSION as u64);
        from_chars(&out)
    }
}

// ---------------------------------------------------------------------------
// small texts
// ---------------------------------------------------------------------------

/// The token usage line under a raw prompt: used of the limit, or used with
/// no limit set (a missing count counting as 0).
pub open spec fn spec_usage_text(prompt_tokens: Option<i64>, context_limit: Option<i64>) -> Seq<char> {
    let used = match prompt_tokens {
        Some(u) => u,
        None => 0,
    };
    let limit = match context_limit {
        Some(l) => l,
        None => 0,
    };
    if limit > 0 {
        int_decimal(used as int) + " / "@ + int_decimal(limit as int) + " tokens (estimated)"@
    } else {
        int_decimal(used as int) + " tokens (estimated, no limit set)"@
    }
}

/// The token usage line of a raw prompt.
pub fn usage_text(prompt_tokens: Option<i64>, context_limit: Option<i64>) -> (r: String)
    ensures
        r@ == spec_usage_text(prompt_tokens, context_limit),
{
    let used = match prompt_tokens {
        Some(u) => u,
        None => 0,
    };
    let limit = match context_limit {
        Some(l) => l,
        None => 0,
    };
    let mut out: Vec<char> = Vec::new();
    push_i64_decimal(&mut out, used);
    if limit > 0 {
        push_all(&mut out, &to_chars(" / "));
        push_i64_decimal(&mut out, limit);
        push_all(&mut out, &to_chars(" tokens (estimated)"));
    } else {
        push_all(&mut out, &to_chars(" tokens (estimated, no limit set)"));
    }
    from_chars(&out)
}

/// The number of enabled places in a prompt order.
pub open spec fn enabled_count(order: Seq<crate::models::PresetOrderEntry>) -> nat
    decreases order.len(),
{
    if order.len() == 0 {
        0
    } else {
        enabled_count(order.drop_last()) + if order.last().enabled {
            1nat
        } else {
            0nat
        }
    }
}

/// A preset's summary line: its prompt slots and how many are enabled.
pub fn preset_summary(p: &Preset) -> (r: String)
    ensures
        r@ == nat_decimal(p.prompts@.len()) + " prompt slots, "@ + nat_decimal(
            enabled_count(p.prompt_order@),
        ) + " enabled"@,
{
    let mut n: usize = 0;
    let mut i: usize = 0;
    while i < p.prompt_order.len()
        invariant
            i <= p.prompt_order@.len(),
            n == enabled_count(p.prompt_order@.take(i as int)),
            n <= i,
        decreases p.prompt_order@.len() - i,
    {
        proof {
            assert(p.prompt_order@.take(i + 1).drop_last() =~= p.prompt_order@.take(i as int));
        }
        if p.prompt_order[i].enabled {
            n = n + 1;
        }
        i = i + 1;
    }
    proof {
        assert(p.prompt_order@.take(i as int) =~= p.prompt_order@);
    }
    let mut out: Vec<char> = Vec::new();
    push_decimal(&mut out, p.prompts.len() as u64);
    push_all(&mut out, &to_chars(" prompt slots, "));
    push_decimal(&mut out, n as u64);
    push_all(&mut out, &to_chars(" enabled"));
    from_chars(&out)
}

/// `name` with every `/` replaced by `-`, then `.json`: the file an export is saved as.
pub open spec fn spec_export_filename(name: Seq<char>) -> Seq<char> {
    Seq::new(name.len(), |i: int| if name[i] == '/' { '-' } else { name[i] }) + ".json"@
}

/// The file name an exported preset or theme is saved under.
pub fn export_filename(name: &str) -> (r: String)
    ensures
        r@ == spec_export_filename(name@),
{
    let cs = to_chars(name);
    let mut out: Vec<char> = Vec::new();
    let mut i: usize = 0;
    while i < cs.len()
        invariant
            i <= cs@.len(),
            cs@ == name@,
            out@ == Seq::new(i as nat, |k: int| if name@[k] == '/' { '-' } else { name@[k] }),
        decreases cs@.len() - i,
    {
        let c = cs[i];
        out.push(if c == '/' { '-' } else { c });
        proof {
            assert(out@ =~= Seq::new((i + 1) as nat, |k: int| if name@[k] == '/' { '-' } else { name@[k] }));
        }
        i = i + 1;
    }
    push_all(&mut out, &to_chars(".json"));
    from_chars(&out)
}

/// The name of a duplicated theme.
pub fn duplicate_name(name: &str) -> (r: String)
    ensures
        r@ == name@ + " (copy)"@,
{
    let mut out = to_chars(name);
    push_all(&mut out, &to_chars(" (copy)"));
    from_chars(&out)
}

/// The address an image is loaded from on its `retry`th reload.
pub fn proxied_src(src: &str, retry: u32) -> (r: String)
    ensures
        r@ == (if retry == 0 {
            src@
        } else {
            src@ + "&retry="@ + nat_decimal(retry as nat)
        }),
{
    if retry == 0 {
        return src.to_string();
    }
    let mut out = to_chars(src);
    push_all(&mut out, &to_chars("&retry="));
    push_decimal(&mut out, retry as u64);
    from_chars(&out)
}

/// The providers configured by a base address.
pub open spec fn spec_needs_base_url(provider: Seq<char>) -> bool {
    provider == "openai"@ || provider == "kobold"@ || provider == "mancer"@
}

/// Whether a provider is configured by a base address.
pub fn needs_base_url(provider: &str) -> (r: bool)
    ensures
        r == spec_needs_base_url(provider@),
{
    let p = to_chars(provider);
    chars_eq(&p, &to_chars("openai")) || chars_eq(&p, &to_chars("kobold")) || chars_eq(
        &p,
        &to_chars("mancer"),
    )
}

/// The provider summaries use: their own, else the chat provider.
pub fn effective_summary_provider(summary_provider: &String, provider: &String) -> (r: String)
    ensures
        r@ == (if summary_provider@.len() == 0 {
            provider@
        } else {
            summary_provider@
        }),
{
    if summary_provider.as_str().is_empty() {
        provider.clone()
    } else {
        summary_provider.clone()
    }
}

// ---------------------------------------------------------------------------
// searching characters
// ---------------------------------------------------------------------------

/// The index at or after `i` where the run of non-whitespace starting at
/// `i` ends.
pub open spec fn run_end(s: Seq<char>, i: int) -> int
    decreases s.len() - i,
{
    if i < 0 || i >= s.len() || is_ws(s[i]) {
        i
    } else {
        run_end(s, i + 1)
    }
}

/// The first index at or after `i` that is not whitespace (or the end).
pub open spec fn ws_end(s: Seq<char>, i: int) -> int
    decreases s.len() - i,
{
    if i < 0 || i >= s.len() || !is_ws(s[i]) {
        i
    } else {
        ws_end(s, i + 1)
    }
}

pub proof fn lemma_run_end(s: Seq<char>, i: int)
    requires
        0 <= i <= s.len(),
    ensures
        i <= run_end(s, i) <= s.len(),
        i < s.len() && !is_ws(s[i]) ==> run_end(s, i) > i,
    decreases s.len() - i,
{
    if i < s.len() && !is_ws(s[i]) {
        lemma_run_end(s, i + 1);
    }
}

pub proof fn lemma_ws_end(s: Seq<char>, i: int)
    requires
        0 <= i <= s.len(),
    ensures
        i <= ws_end(s, i) <= s.len(),
        ws_end(s, i) < s.len() ==> !is_ws(s[ws_end(s, i)]),
    decreases s.len() - i,
{
    if i < s.len() && is_ws(s[i]) {
        lemma_ws_end(s, i + 1);
    }
}

/// The whitespace-separated words of `s` from index `i` on (std's
/// `split_whitespace`).
pub open spec fn words_from(s: Seq<char>, i: int) -> Seq<Seq<char>>
    decreases s.len() - i,
{
    if i < 0 || i > s.len() {
        Seq::empty()
    } else {
        let a = ws_end(s, i);
        if a >= s.len() {
            Seq::empty()
        } else {
            proof {
                lemma_ws_end(s, i);
                lemma_run_end(s, a);
            }
            let b = run_end(s, a);
            seq![s.subrange(a, b)] + words_from(s, b)
        }
    }
}

/// Whether a character shows up for a search: every word of the lower-cased
/// query occurs in its lower-cased name or in one of its lower-cased tag names.
pub open spec fn spec_matches_search(name: Seq<char>, tag_names: Seq<Seq<char>>, query: Seq<char>) -> bool {
    let terms = words_from(unicode_lowercase(query), 0);
    forall|k: int|
        0 <= k < terms.len() ==> contains(unicode_lowercase(name), #[trigger] terms[k]) || exists|
            t: int,
        |
            0 <= t < tag_names.len() && contains(unicode_lowercase(tag_names[t]), terms[k])
}

/// The words of a lower-cased query (executable `words_from`).
fn words(s: &[char]) -> (r: Vec<Vec<char>>)
    ensures
        r@.map_values(|w: Vec<char>| w@) == words_from(s@, 0),
{
    let mut out: Vec<Vec<char>> = Vec::new();
    let mut i: usize = 0;
    proof {
        assert(out@.map_values(|w: Vec<char>| w@) + words_from(s@, 0) =~= words_from(s@, 0));
    }
    while i < s.len()
        invariant
            i <= s@.len(),
            out@.map_values(|w: Vec<char>| w@) + words_from(s@, i as int) == words_from(s@, 0),
        decreases s@.len() - i,
    {
        let ghost before = out@;
        let mut a = i;
        while a < s.len() && is_whitespace(s[a])
            invariant
                i <= a <= s@.len(),
                ws_end(s@, i as int) == ws_end(s@, a as int),
            decreases s@.len() - a,
        {
            a = a + 1;
        }
        proof {
            lemma_ws_end(s@, i as int);
        }
        if a >= s.len() {
            proof {
                assert(words_from(s@, i as int) =~= Seq::<Seq<char>>::empty());
                assert(out@.map_values(|w: Vec<char>| w@) + Seq::<Seq<char>>::empty() =~= out@.map_values(
                    |w: Vec<char>| w@,
                ));
                assert(words_from(s@, s@.len() as int) =~= Seq::<Seq<char>>::empty());
            }
            i = s.len();
        } else {
            let mut b = a;
            while b < s.len() && !is_whitespace(s[b])
                invariant
                    a <= b <= s@.len(),
                    run_end(s@, a as int) == run_end(s@, b as int),
                decreases s@.len() - b,
            {
                b = b + 1;
            }
            proof {
                lemma_run_end(s@, a as int);
            }
            let w = slice_vec(s, a, b);
            out.push(w);
            proof {
                assert(out@.map_values(|w: Vec<char>| w@) =~= before.map_values(|w: Vec<char>| w@).push(
                    s@.subrange(a as int, b as int),
                ));
                assert(words_from(s@, i as int) == seq![s@.subrange(a as int, b as int)] + words_from(
                    s@,
                    b as int,
                ));
                assert(before.map_values(|w: Vec<char>| w@).push(s@.subrange(a as int, b as int))
                    + words_from(s@, b as int) =~= before.map_values(|w: Vec<char>| w@) + (seq![
                    s@.subrange(a as int, b as int),
                ] + words_from(s@, b as int)));
            }
            i = b;
        }
    }
    proof {
        assert(words_from(s@, i as int) =~= Seq::<Seq<char>>::empty());
        assert(out@.map_values(|w: Vec<char>| w@) + Seq::<Seq<char>>::empty() =~= out@.map_values(
            |w: Vec<char>| w@,
        ));
    }
    out
}

/// Whether a character matches a search of its name and tags.
pub fn matches_search(name: &str, tag_names: &Vec<String>, query: &str) -> (r: bool)
    ensures
        r == spec_matches_search(name@, strs_view(tag_names@), query@),
{
    let q = to_lowercase(query);
    let terms = words(&to_chars(q.as_str()));
    let name_l = to_chars(to_lowercase(name).as_str());
    let mut tags_l: Vec<Vec<char>> = Vec::new();
    let mut t: usize = 0;
    while t < tag_names.len()
        invariant
            t <= tag_names@.len(),
            tags_l@.len() == t,
            forall|j: int| 0 <= j < t ==> #[trigger] tags_l@[j]@ == unicode_lowercase(tag_names@[j]@),
        decreases tag_names@.len() - t,
    {
        tags_l.push(to_chars(to_lowercase(tag_names[t].as_str()).as_str()));
        t = t + 1;
    }
    let ghost tv = strs_view(tag_names@);
    let ghost tw = words_from(unicode_lowercase(query@), 0);
    let mut k: usize = 0;
    while k < terms.len()
        invariant
            k <= terms@.len(),
            terms@.map_values(|w: Vec<char>| w@) == tw,
            tw == words_from(unicode_lowercase(query@), 0),
            tags_l@.len() == tag_names@.len(),
            tv == strs_view(tag_names@),
            name_l@ == unicode_lowercase(name@),
            forall|j: int| 0 <= j < tags_l@.len() ==> #[trigger] tags_l@[j]@ == unicode_lowercase(tag_names@[j]@),
            forall|j: int|
                0 <= j < k ==> contains(unicode_lowercase(name@), #[trigger] tw[j]) || exists|t: int|
                    0 <= t < tv.len() && contains(unicode_lowercase(tv[t]), tw[j]),
        decreases terms@.len() - k,
    {
        let term = &terms[k];
        proof {
            assert(tw[k as int] == term@);
        }
        let mut found = contains_exec(&name_l, term);
        let mut j: usize = 0;
        while !found && j < tags_l.len()
            invariant
                j <= tags_l@.len(),
                tags_l@.len() == tag_names@.len(),
                tv == strs_view(tag_names@),
                forall|x: int| 0 <= x < tags_l@.len() ==> #[trigger] tags_l@[x]@ == unicode_lowercase(tag_names@[x]@),
                found ==> contains(unicode_lowercase(name@), term@) || exists|t: int|
                    0 <= t < tv.len() && contains(unicode_lowercase(tv[t]), term@),
                !found ==> !contains(unicode_lowercase(name@), term@) && forall|t: int|
                    0 <= t < j ==> !contains(unicode_lowercase(tv[t]), term@),
                name_l@ == unicode_lowercase(name@),
            decreases tags_l@.len() - j,
        {
            if contains_exec(&tags_l[j], term) {
                found = true;
                proof {
                    assert(tv[j as int] == tag_names@[j as int]@);
                }
            }
            j = j + 1;
        }
        if !found {
            proof {
                assert forall|t: int| 0 <= t < tv.len() implies !contains(unicode_lowercase(tv[t]), term@) by {
                    assert(tv[t] == tag_names@[t]@);
                }
                assert(!(contains(unicode_lowercase(name@), tw[k as int]) || exists|t: int|
                    0 <= t < tv.len() && contains(unicode_lowercase(tv[t]), tw[k as int])));
            }
            return false;
        }
        k = k + 1;
    }
    true
}

/// The names of the tags with the given ids, in the order of `tag_ids`,
/// skipping ids of no known tag (the last tag listed with an id counts).
pub open spec fn spec_tag_names(tag_ids: Seq<Seq<char>>, tags: Seq<Tag>) -> Seq<Seq<char>>
    decreases tag_ids.len(),
{
    if tag_ids.len() == 0 {
        Seq::empty()
    } else {
        spec_tag_names(tag_ids.drop_last(), tags) + match tag_lookup(tags, tag_ids.last()) {
            Some(t) => seq![t.name@],
            None => Seq::empty(),
        }
    }
}

/// The last tag with id `id`.
pub open spec fn tag_lookup(tags: Seq<Tag>, id: Seq<char>) -> Option<Tag>
    decreases tags.len(),
{
    if tags.len() == 0 {
        None
    } else if tags.last().id@ == id {
        Some(tags.last())
    } else {
        tag_lookup(tags.drop_last(), id)
    }
}

fn find_tag(tags: &Vec<Tag>, id: &String) -> (r: Option<usize>)
    ensures
        match r {
            Some(k) => k < tags@.len() && tag_lookup(tags@, id@) == Some(tags@[k as int]),
            None => tag_lookup(tags@, id@) is None,
        },
{
    let mut i: usize = tags.len();
    proof {
        assert(tags@.take(i as int) =~= tags@);
    }
    while i > 0
        invariant
            i <= tags@.len(),
            tag_lookup(tags@, id@) == tag_lookup(tags@.take(i as int), id@),
        decreases i,
    {
        proof {
            assert(tags@.take(i as int).drop_last() =~= tags@.take(i - 1));
            assert(tags@.take(i as int).last() == tags@[i - 1]);
        }
        if tags[i - 1].id == *id {
            return Some(i - 1);
        }
        i = i - 1;
    }
    None
}

/// The names of a character's tags, for searching.
pub fn character_tag_names(tag_ids: &Vec<String>, tags: &Vec<Tag>) -> (r: Vec<String>)
    ensures
        strs_view(r@) == spec_tag_names(strs_view(tag_ids@), tags@),
{
    let ghost iv = strs_view(tag_ids@);
    let mut out: Vec<String> = Vec::new();
    let mut i: usize = 0;
    proof {
        assert(iv.take(0) =~= Seq::<Seq<char>>::empty());
        assert(strs_view(out@) =~= Seq::<Seq<char>>::empty());
    }
    while i < tag_ids.len()
        invariant
            i <= tag_ids@.len(),
            iv == strs_view(tag_ids@),
            strs_view(out@) == spec_tag_names(iv.take(i as int), tags@),
        decreases tag_ids@.len() - i,
    {
        proof {
            assert(iv.take(i + 1).drop_last() =~= iv.take(i as int));
            assert(iv.take(i + 1).last() == tag_ids@[i as int]@);
        }
        let ghost before = out@;
        match find_tag(tags, &tag_ids[i]) {
            Some(k) => {
                out.push(tags[k].name.clone());
                proof {
                    assert(strs_view(out@) =~= strs_view(before) + seq![tags@[k as int].name@]);
                }
            },
            None => {
                proof {
                    assert(strs_view(out@) =~= strs_view(before) + Seq::<Seq<char>>::empty());
                }
            },
        }
        i = i + 1;
    }
    proof {
        assert(iv.take(i as int) =~= iv);
    }
    out
}

// ---------------------------------------------------------------------------
// the peeking mascot in the corner
// ---------------------------------------------------------------------------

/// The corner mascot: whether it is raised, whether it shows its clicked
/// pose, and a counter bumped by every open and close so that a delayed
/// pose change from an old close can tell it has been overtaken.
#[derive(Clone, Copy, Debug)]
pub struct PeekState {
    pub raised: bool,
    pub pose_clicked: bool,
    pub close_gen: u32,
}

impl PeekState {
    /// The mascot at rest.
    pub fn new() -> (r: PeekState)
        ensures
            !r.raised && !r.pose_clicked && r.close_gen == 0,
    {
        PeekState { raised: false, pose_clicked: false, close_gen: 0 }
    }

    /// The mood shown.
    pub fn mood(&self) -> (r: MascotState)
        ensures
            r == (if self.pose_clicked {
                MascotState::PeekClicked
            } else {
                MascotState::Peek
            }),
    {
        if self.pose_clicked {
            MascotState::PeekClicked
        } else {
            MascotState::Peek
        }
    }

    /// Raises the mascot in its clicked pose.
    pub fn open(&mut self)
        ensures
            *final(self) == spec_peek_open(*old(self)),
    {
        self.close_gen = self.close_gen.wrapping_add(1);
        self.pose_clicked = true;
        self.raised = true;
    }

    /// Lowers the mascot; returns the counter value the delayed pose change
    /// is scheduled with.
    pub fn close(&mut self) -> (r: u32)
        ensures
            *final(self) == spec_peek_close(*old(self)),
            r == final(self).close_gen,
    {
        self.raised = false;
        self.close_gen = self.close_gen.wrapping_add(1);
        self.close_gen
    }

    /// A click on the mascot: closes it when raised (returning the counter
    /// value to schedule the pose change with), opens it otherwise.
    pub fn toggle(&mut self) -> (r: Option<u32>)
        ensures
            old(self).raised ==> *final(self) == spec_peek_close(*old(self)) && r == Some(
                final(self).close_gen,
            ),
            !old(self).raised ==> *final(self) == spec_peek_open(*old(self)) && r is None,
    {
        if self.raised {
            Some(self.close())
        } else {
            self.open();
            None
        }
    }

    /// The delayed pose change of a close: it applies only when nothing
    /// opened or closed the mascot since.
    pub fn close_settled(&mut self, scheduled_gen: u32)
        ensures
            *final(self) == spec_peek_settled(*old(self), scheduled_gen),
    {
        if self.close_gen == scheduled_gen {
            self.pose_clicked = false;
        }
    }
}

/// The state after an open.
pub open spec fn spec_peek_open(s: PeekState) -> PeekState {
    PeekState { raised: true, pose_clicked: true, close_gen: s.close_gen.wrapping_add(1) }
}

/// The state after a close.
pub open spec fn spec_peek_close(s: PeekState) -> PeekState {
    PeekState { raised: false, close_gen: s.close_gen.wrapping_add(1), ..s }
}

/// The state after the delayed pose change scheduled with `gen`.
pub open spec fn spec_peek_settled(s: PeekState, gen: u32) -> PeekState {
    if s.close_gen == gen {
        PeekState { pose_clicked: false, ..s }
    } else {
        s
    }
}

/// A close followed by its delayed pose change leaves the mascot lowered
/// in its resting pose; a reopening in between overtakes the pose change,
/// leaving the mascot raised in its clicked pose.
pub proof fn law_reopen_overtakes_close(s: PeekState)
    ensures
        ({
            let closed = spec_peek_close(s);
            let settled = spec_peek_settled(closed, closed.close_gen);
            !settled.raised && !settled.pose_clicked
        }),
        ({
            let closed = spec_peek_close(s);
            let reopened = spec_peek_open(closed);
            let settled = spec_peek_settled(reopened, closed.close_gen);
            settled.raised && settled.pose_clicked
        }),
{
    let g = s.close_gen;
    assert(g.wrapping_add(1).wrapping_add(1) != g.wrapping_add(1)) by (bit_vector);
}

/// Choosing a preset and reading the stored speed back selects the same
/// preset again.
pub proof fn law_speed_preset_round_trip(index: int)
    requires
        0 <= index < 4,
    ensures
        spec_speed_to_preset_index(speed_presets()[index]) == index,
{
}

// ---------------------------------------------------------------------------
// the character file
// ---------------------------------------------------------------------------

/// `s` without its hyphens.
pub open spec fn without_hyphens(s: Seq<char>) -> Seq<char>
    decreases s.len(),
{
    if s.len() == 0 {
        s
    } else if s.last() == '-' {
        without_hyphens(s.drop_last())
    } else {
        without_hyphens(s.drop_last()).push(s.last())
    }
}

/// The last (at most) eight characters of `s`.
pub open spec fn last_eight(s: Seq<char>) -> Seq<char> {
    if s.len() <= 8 {
        s
    } else {
        s.subrange(s.len() - 8, s.len() as int)
    }
}

/// The number a character's file is shown under: the last eight characters
/// of its id, hyphens left out, in upper case.
pub fn file_number(id: &str) -> (r: String)
    ensures
        r@ == unicode_uppercase(last_eight(without_hyphens(id@))),
{
    let cs = to_chars(id);
    let mut kept: Vec<char> = Vec::new();
    let mut i: usize = 0;
    while i < cs.len()
        invariant
            i <= cs@.len(),
            cs@ == id@,
            kept@ == without_hyphens(cs@.take(i as int)),
        decreases cs.len() - i,
    {
        proof {
            assert(cs@.take(i + 1).drop_last() =~= cs@.take(i as int));
        }
        if cs[i] != '-' {
            kept.push(cs[i]);
        }
        i = i + 1;
    }
    proof {
        assert(cs@.take(cs@.len() as int) =~= cs@);
    }
    let from: usize = if kept.len() <= 8 { 0 } else { kept.len() - 8 };
    let tail = slice_vec(kept.as_slice(), from, kept.len());
    proof {
        assert(tail@ =~= last_eight(kept@));
    }
    to_uppercase(from_chars(tail.as_slice()).as_str())
}

} // verus!
