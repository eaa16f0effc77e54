//! The widget's configuration values and their validation: animation
//! toggles, clock format, and the runtime environment name. The theme
//! settings, which carry fractional sizes, live with the embedding
//! application; their validation is out of this library's reach.

use crate::text::{ascii_chars, to_ascii_string, two_digits};
use vstd::prelude::*;

verus! {

/// Animation toggles: background blur and fade-in.
#[derive(Clone, Copy, PartialEq, Eq, Structural, Debug)]
pub struct AnimationConfig {
    pub blur: bool,
    pub fade_in: bool,
}

impl AnimationConfig {
    /// A fresh configuration with both animations on.
    pub fn new() -> (r: Self)
        ensures
            r.blur && r.fade_in,
    {
        Self::default()
    }

    /// The default configuration: both animations on.
    pub fn default() -> (r: Self)
        ensures
            r.blur && r.fade_in,
    {
        AnimationConfig { blur: true, fade_in: true }
    }

    /// The pair of toggles, blur first.
    pub fn animation_default_settings(&self) -> (r: (bool, bool))
        ensures
            r == (self.blur, self.fade_in),
    {
        (self.blur, self.fade_in)
    }
}

/// The runtime environment the widget reports itself under.
#[derive(Debug)]
pub struct EnvConfig {
    pub environment: String,
}

pub open spec fn environment_ok(e: Seq<char>) -> bool {
    e == "development"@ || e == "production"@
}

pub open spec fn environment_error(e: Seq<char>) -> Seq<char> {
    "Invalid environment: "@ + e
}

impl EnvConfig {
    /// A fresh configuration naming the development environment.
    pub fn new() -> (r: Self)
        ensures
            r.environment@ == "development"@,
    {
        EnvConfig { environment: String::from_str("development") }
    }

    /// Accept exactly the two known environment names; reject any
    /// other with a message naming it.
    pub fn validate(&self) -> (r: Result<(), String>)
        ensures
            r is Ok <==> environment_ok(self.environment@),
            match r {
                Result::Ok(_) => true,
                Result::Err(e) => e@ == environment_error(self.environment@),
            },
    {
        let development = String::from_str("development");
        let production = String::from_str("production");
        if self.environment == development || self.environment == production {
            Ok(())
        } else {
            Err(String::from_str("Invalid environment: ").concat(self.environment.as_str()))
        }
    }
}

/// Clock display settings: 12-hour or 24-hour format, short or long
/// (with seconds) precision.
#[derive(Debug)]
pub struct GeneralConfig {
    pub clock_format: String,
    pub time_precision: String,
}

pub open spec fn clock_format_ok(f: Seq<char>) -> bool {
    f == "12-hour"@ || f == "24-hour"@
}

pub open spec fn time_precision_ok(p: Seq<char>) -> bool {
    p == "short"@ || p == "long"@
}

/// The validation message: each bad setting named, the two joined with
/// a semicolon when both are bad.
pub open spec fn general_error(f: Seq<char>, p: Seq<char>) -> Seq<char> {
    let ef = "Invalid clock format: "@ + f;
    let ep = "Invalid time precision: "@ + p;
    if !clock_format_ok(f) && !time_precision_ok(p) {
        ef + "; "@ + ep
    } else if !clock_format_ok(f) {
        ef
    } else {
        ep
    }
}

/// The hour on a 12-hour dial: noon and midnight read 12.
pub open spec fn hour12(h: int) -> int {
    if h % 12 == 0 {
        12
    } else {
        h % 12
    }
}

/// The clock text for a time of day under the given settings: hours
/// and minutes, seconds when the precision is long, and a morning or
/// evening mark in 12-hour format. Unknown settings fall back to the
/// long 24-hour form.
pub open spec fn time_text(f: Seq<char>, p: Seq<char>, h: int, m: int, s: int) -> Seq<u8> {
    let hm24 = two_digits(h) + seq![0x3Au8] + two_digits(m);
    let hm12 = two_digits(hour12(h)) + seq![0x3Au8] + two_digits(m);
    let mark: Seq<u8> = if h < 12 {
        seq![0x41u8, 0x4Du8]
    } else {
        seq![0x50u8, 0x4Du8]
    };
    if f == "24-hour"@ && p == "short"@ {
        hm24
    } else if f == "24-hour"@ && p == "long"@ {
        hm24 + seq![0x3Au8] + two_digits(s)
    } else if f == "12-hour"@ && p == "short"@ {
        hm12 + seq![0x20u8] + mark
    } else if f == "12-hour"@ && p == "long"@ {
        hm12 + seq![0x3Au8] + two_digits(s) + seq![0x20u8] + mark
    } else {
        hm24 + seq![0x3Au8] + two_digits(s)
    }
}

impl GeneralConfig {
    /// A fresh configuration: 12-hour dial, long precision.
    pub fn new() -> (r: Self)
        ensures
            r.clock_format@ == "12-hour"@,
            r.time_precision@ == "long"@,
    {
        GeneralConfig {
            clock_format: String::from_str("12-hour"),
            time_precision: String::from_str("long"),
        }
    }

    /// Accept exactly the known format and precision names; reject
    /// others with a message naming each bad value.
    pub fn validate(&self) -> (r: Result<(), String>)
        ensures
            r is Ok <==> clock_format_ok(self.clock_format@) && time_precision_ok(
                self.time_precision@,
            ),
            match r {
                Result::Ok(_) => true,
                Result::Err(e) => e@ == general_error(self.clock_format@, self.time_precision@),
            },
    {
        let format_ok = self.clock_format == String::from_str("12-hour") || self.clock_format
            == String::from_str("24-hour");
        let precision_ok = self.time_precision == String::from_str("short") || self.time_precision
            == String::from_str("long");
        if format_ok && precision_ok {
            Ok(())
        } else if !format_ok && !precision_ok {
            let e = String::from_str("Invalid clock format: ").concat(self.clock_format.as_str());
            let e = e.concat("; ");
            let e = e.concat("Invalid time precision: ");
            let e = e.concat(self.time_precision.as_str());
            proof {
                assert(e@ =~= general_error(self.clock_format@, self.time_precision@));
            }
            Err(e)
        } else if !format_ok {
            Err(String::from_str("Invalid clock format: ").concat(self.clock_format.as_str()))
        } else {
            Err(
                String::from_str("Invalid time precision: ").concat(self.time_precision.as_str()),
            )
        }
    }

    /// The clock text for a time of day under these settings.
    pub fn format_time(&self, hour: u8, minute: u8, second: u8) -> (r: String)
        requires
            hour < 24,
            minute < 60,
            second < 60,
        ensures
            r@ == ascii_chars(
                time_text(self.clock_format@, self.time_precision@, hour as int, minute as int,
                second as int),
            ),
    {
        let twelve = self.clock_format == String::from_str("12-hour");
        let twenty_four = self.clock_format == String::from_str("24-hour");
        let short = self.time_precision == String::from_str("short");
        let long = self.time_precision == String::from_str("long");
        let h12: u8 = if hour % 12 == 0 {
            12
        } else {
            hour % 12
        };
        let mut out: Vec<u8> = Vec::new();
        if twelve && (short || long) {
            crate::text::push_two_digits(&mut out, h12);
        } else {
            crate::text::push_two_digits(&mut out, hour);
        }
        out.push(0x3A);
        crate::text::push_two_digits(&mut out, minute);
        if !(twenty_four && short) && !(twelve && short) {
            out.push(0x3A);
            crate::text::push_two_digits(&mut out, second);
        }
        if twelve && (short || long) {
            out.push(0x20);
            if hour < 12 {
                out.push(0x41);
            } else {
                out.push(0x50);
            }
            out.push(0x4D);
        }
        proof {
            reveal_strlit("12-hour");
            reveal_strlit("24-hour");
            reveal_strlit("short");
            reveal_strlit("long");
            assert("12-hour"@ != "24-hour"@) by {
                assert("12-hour"@[0] != "24-hour"@[0]);
            };
            assert("short"@ != "long"@) by {
                assert("short"@.len() != "long"@.len());
            };
            assert(out@ =~= time_text(
                self.clock_format@,
                self.time_precision@,
                hour as int,
                minute as int,
                second as int,
            ));
            assert(crate::text::all_ascii(out@)) by {
                assert forall|k: int| 0 <= k < out@.len() implies out@[k] < 0x80 by {
                    let t = out@;
                    assert(forall|n: int|
                        0 <= n ==> two_digits(n)[0] < 0x80 && two_digits(n)[1] < 0x80);
                }
            };
        }
        to_ascii_string(&out)
    }
}

/// Reject a set of animation configurations in which an animation is
/// switched on twice, or on in one and off in another.
pub open spec fn anim_dup_error(
    s: Seq<AnimationConfig>,
    i: int,
    seen_blur: bool,
    seen_fade: bool,
) -> Option<bool>
    decreases s.len() - i,
{
    if i < 0 || i >= s.len() {
        None
    } else if s[i].blur && seen_blur {
        Some(true)
    } else if s[i].fade_in && seen_fade {
        Some(false)
    } else {
        anim_dup_error(s, i + 1, seen_blur || s[i].blur, seen_fade || s[i].fade_in)
    }
}

/// The outcome of validating a list of animation configurations: a
/// doubled 'on' is reported first (blur before fade-in within one
/// entry), then a toggle that is both on and off across entries.
pub open spec fn validate_animations_spec(s: Seq<AnimationConfig>) -> Option<Seq<char>> {
    match anim_dup_error(s, 0, false, false) {
        Option::Some(true) => Some("Error: 'blur' is set to true multiple times."@),
        Option::Some(false) => Some("Error: 'fade_in' is set to true multiple times."@),
        Option::None => {
            if (exists|k: int| 0 <= k < s.len() && s[k].blur) && (exists|k: int|
                0 <= k < s.len() && !s[k].blur) {
                Some("Error: 'blur' animation cannot be both true and false."@)
            } else if (exists|k: int| 0 <= k < s.len() && s[k].fade_in) && (exists|k: int|
                0 <= k < s.len() && !s[k].fade_in) {
                Some("Error: 'fade_in' animation cannot be both true and false."@)
            } else {
                None
            }
        },
    }
}

/// Check a list of animation configurations: no animation may be
/// switched on twice, and none may be both on and off.
pub fn validate_animations(animations: &[AnimationConfig]) -> (r: Result<(), String>)
    ensures
        r is Ok <==> validate_animations_spec(animations@) is None,
        match r {
            Result::Ok(_) => true,
            Result::Err(e) => validate_animations_spec(animations@) == Some(e@),
        },
{
    let ghost s = animations@;
    let mut seen_blur = false;
    let mut seen_fade = false;
    let mut i: usize = 0;
    while i < animations.len()
        invariant
            i <= s.len(),
            animations@ == s,
            anim_dup_error(s, 0, false, false) == anim_dup_error(
                s,
                i as int,
                seen_blur,
                seen_fade,
            ),
            seen_blur == (exists|k: int| 0 <= k < i && s[k].blur),
            seen_fade == (exists|k: int| 0 <= k < i && s[k].fade_in),
        decreases s.len() - i,
    {
        let a = animations[i];
        if a.blur && seen_blur {
            return Err(String::from_str("Error: 'blur' is set to true multiple times."));
        }
        if a.fade_in && seen_fade {
            return Err(String::from_str("Error: 'fade_in' is set to true multiple times."));
        }
        seen_blur = seen_blur || a.blur;
        seen_fade = seen_fade || a.fade_in;
        i = i + 1;
    }
    let mut has_blur = false;
    let mut no_blur = false;
    let mut has_fade = false;
    let mut no_fade = false;
    let mut j: usize = 0;
    while j < animations.len()
        invariant
            j <= s.len(),
            animations@ == s,
            has_blur == (exists|k: int| 0 <= k < j && s[k].blur),
            no_blur == (exists|k: int| 0 <= k < j && !s[k].blur),
            has_fade == (exists|k: int| 0 <= k < j && s[k].fade_in),
            no_fade == (exists|k: int| 0 <= k < j && !s[k].fade_in),
        decreases s.len() - j,
    {
        let a = animations[j];
        has_blur = has_blur || a.blur;
        no_blur = no_blur || !a.blur;
        has_fade = has_fade || a.fade_in;
        no_fade = no_fade || !a.fade_in;
        j = j + 1;
    }
    if has_blur && no_blur {
        return Err(String::from_str("Error: 'blur' animation cannot be both true and false."));
    }
    if has_fade && no_fade {
        return Err(
            String::from_str("Error: 'fade_in' animation cannot be both true and false."),
        );
    }
    Ok(())
}

/// Check the clock settings, naming the stage on failure.
pub fn validate_general(general: &GeneralConfig) -> (r: Result<(), String>)
    ensures
        r is Ok <==> clock_format_ok(general.clock_format@) && time_precision_ok(
            general.time_precision@,
        ),
        match r {
            Result::Ok(_) => true,
            Result::Err(e) => e@ == "General configuration validation failed: "@ + general_error(
                general.clock_format@,
                general.time_precision@,
            ),
        },
{
    match general.validate() {
        Result::Ok(_) => Ok(()),
        Result::Err(e) => Err(
            String::from_str("General configuration validation failed: ").concat(e.as_str()),
        ),
    }
}

/// Check the environment name, naming the stage on failure.
pub fn validate_environment(env: &EnvConfig) -> (r: Result<(), String>)
    ensures
        r is Ok <==> environment_ok(env.environment@),
        match r {
            Result::Ok(_) => true,
            Result::Err(e) => e@ == "Environment configuration validation failed: "@
                + environment_error(env.environment@),
        },
{
    match env.validate() {
        Result::Ok(_) => Ok(()),
        Result::Err(e) => Err(
            String::from_str("Environment configuration validation failed: ").concat(e.as_str()),
        ),
    }
}

} // verus!
