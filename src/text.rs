use vstd::prelude::*;
use vstd::string::StringExecFns;

verus! {

/// Decimal digits of a natural number, most significant first.
pub open spec fn decimal(n: nat) -> Seq<char>
    decreases n,
{
    if n < 10 {
        seq![digit_char(n)]
    } else {
        decimal(n / 10).push(digit_char(n % 10))
    }
}

/// The character of a single decimal digit.
pub open spec fn digit_char(d: nat) -> char {
    if d == 0 { '0' } else if d == 1 { '1' } else if d == 2 { '2' } else if d == 3 { '3' }
    else if d == 4 { '4' } else if d == 5 { '5' } else if d == 6 { '6' } else if d == 7 { '7' }
    else if d == 8 { '8' } else { '9' }
}

fn digit(d: usize) -> (c: &'static str)
    requires
        d < 10,
    ensures
        c@ == seq![digit_char(d as nat)],
{
    proof {
        reveal_strlit("0");
        reveal_strlit("1");
        reveal_strlit("2");
        reveal_strlit("3");
        reveal_strlit("4");
        reveal_strlit("5");
        reveal_strlit("6");
        reveal_strlit("7");
        reveal_strlit("8");
        reveal_strlit("9");
    }
    if d == 0 { "0" } else if d == 1 { "1" } else if d == 2 { "2" } else if d == 3 { "3" }
    else if d == 4 { "4" } else if d == 5 { "5" } else if d == 6 { "6" } else if d == 7 { "7" }
    else if d == 8 { "8" } else { "9" }
}

/// Writes `n` in decimal.
pub fn decimal_string(n: usize) -> (r: String)
    ensures
        r@ == decimal(n as nat),
    decreases n,
{
    if n < 10 {
        String::from_str(digit(n))
    } else {
        let mut r = decimal_string(n / 10);
        r.append(digit(n % 10));
        r
    }
}

/// The transcript line recorded for message `msg` of user `user` in room `room`.
pub open spec fn log_line(room: Seq<char>, user: nat, msg: Seq<char>) -> Seq<char> {
    "Channel "@ + room + ", user "@ + decimal(user) + ": "@ + msg
}

/// The text delivered to the other occupants for message `msg` of user `sender`.
pub open spec fn outbound_line(sender: nat, msg: Seq<char>) -> Seq<char> {
    "<User#"@ + decimal(sender) + ">: "@ + msg
}

/// The name of the transcript sink of a room created at time `stamp`.
pub open spec fn sink_name(room: Seq<char>, stamp: Seq<char>) -> Seq<char> {
    room + "_"@ + stamp + ".log"@
}

/// What is recorded in place of a frame that carries no text.
pub open spec fn non_text_sentinel() -> Seq<char> {
    "!!!ATTEMPTED TO SEND NON-TEXT MESSAGE!!!"@
}

/// Formats the transcript line that stands for a frame without text from `user` in `room`.
pub fn format_non_text_line(room: &str, user: usize) -> (r: String)
    ensures
        r@ == log_line(room@, user as nat, non_text_sentinel()),
{
    format_log_line(room, user, "!!!ATTEMPTED TO SEND NON-TEXT MESSAGE!!!")
}

/// Formats the transcript line for `msg` sent by `user` in `room`.
pub fn format_log_line(room: &str, user: usize, msg: &str) -> (r: String)
    ensures
        r@ == log_line(room@, user as nat, msg@),
{
    let mut r = String::from_str("Channel ");
    r.append(room);
    r.append(", user ");
    let id = decimal_string(user);
    r.append(id.as_str());
    r.append(": ");
    r.append(msg);
    r
}

/// Formats the text that the other occupants receive for `msg` sent by `sender`.
pub fn format_outbound(sender: usize, msg: &str) -> (r: String)
    ensures
        r@ == outbound_line(sender as nat, msg@),
{
    let mut r = String::from_str("<User#");
    let id = decimal_string(sender);
    r.append(id.as_str());
    r.append(">: ");
    r.append(msg);
    r
}

/// Names the transcript sink of `room`, given its creation time already written out.
pub fn transcript_name(room: &str, stamp: &str) -> (r: String)
    ensures
        r@ == sink_name(room@, stamp@),
{
    let mut r = String::from_str(room);
    r.append("_");
    r.append(stamp);
    r.append(".log");
    r
}

/// The first second, counted from the Unix epoch, of the year 10000.
pub const YEAR_10000_SECS: u64 = 253_402_300_800;

/// The RFC 3339 form of the instant `secs` seconds and `nanos` nanoseconds after the Unix epoch.
pub uninterp spec fn rfc3339_of(secs: int, nanos: int) -> Seq<char>;

/// Relies on humantime::format_rfc3339 and its `Display`: the UTC timestamp of the instant,
/// a function of the instant alone. Its `Display` fails from the year 10000 on, hence the bound.
#[verifier::external_body]
fn format_rfc3339(secs: u64, nanos: u32) -> (r: String)
    requires
        secs < YEAR_10000_SECS,
        nanos < 1_000_000_000,
    ensures
        r@ == rfc3339_of(secs as int, nanos as int),
{
    let t = std::time::UNIX_EPOCH + std::time::Duration::new(secs, nanos);
    humantime::format_rfc3339(t).to_string()
}

/// Names the transcript sink of `room` created `secs` seconds and `nanos` nanoseconds after
/// the Unix epoch; `None` for an instant that the timestamp format cannot express.
pub fn transcript_file_name(room: &str, secs: u64, nanos: u32) -> (r: Option<String>)
    ensures
        r.is_some() <==> secs < YEAR_10000_SECS && nanos < 1_000_000_000,
        r matches Some(n) ==> n@ == sink_name(room@, rfc3339_of(secs as int, nanos as int)),
{
    if secs >= YEAR_10000_SECS || nanos >= 1_000_000_000 {
        return None;
    }
    let stamp = format_rfc3339(secs, nanos);
    Some(transcript_name(room, stamp.as_str()))
}

} // verus!
