//! Log records that the library hands back to the program, which prints them.

use vstd::prelude::*;

verus! {

/// The severity of a log record.
#[derive(Clone, Copy, Debug, PartialEq, Eq, Structural)]
pub enum Level {
    Error,
    Warn,
    Info,
    Debug,
    Trace,
}

/// A message to log.
pub struct LogRecord {
    pub level: Level,
    pub message: String,
}

/// The one-letter name of a level in log lines.
pub fn get_level_name(level: Level) -> (r: &'static str)
    ensures
        r@ == level_name(level),
{
    match level {
        Level::Error => "E",
        Level::Warn => "W",
        Level::Info => "I",
        Level::Debug => "D",
        Level::Trace => "T",
    }
}

/// The one-letter name of a level.
pub open spec fn level_name(level: Level) -> Seq<char> {
    match level {
        Level::Error => "E"@,
        Level::Warn => "W"@,
        Level::Info => "I"@,
        Level::Debug => "D"@,
        Level::Trace => "T"@,
    }
}

/// Adds a record to a log.
pub fn log(records: &mut Vec<LogRecord>, level: Level, message: String)
    ensures
        final(records)@.len() == old(records)@.len() + 1,
        final(records)@.drop_last() == old(records)@,
        final(records)@.last().level == level,
        final(records)@.last().message@ == message@,
        extends(final(records)@, old(records)@),
{
    records.push(LogRecord { level, message });
    assert(final(records)@.drop_last() =~= old(records)@);
    assert forall|j: int| 0 <= j < old(records)@.len() implies #[trigger] final(records)@[j] == old(records)@[j] by {
        assert(final(records)@.drop_last()[j] == final(records)@[j]);
    }
}


/// The levels and messages of some log records.
pub open spec fn records(log: Seq<LogRecord>) -> Seq<(Level, Seq<char>)> {
    log.map_values(|r: LogRecord| (r.level, r.message@))
}

/// Whether a log holds the records of another one and more records after them.
pub open spec fn extends(log: Seq<LogRecord>, before: Seq<LogRecord>) -> bool {
    &&& log.len() >= before.len()
    &&& forall|j: int| 0 <= j < before.len() ==> #[trigger] log[j] == before[j]
}

/// How verbose a level is (`log::Level` as a number).
pub open spec fn level_rank(level: Level) -> nat {
    match level {
        Level::Error => 1,
        Level::Warn => 2,
        Level::Info => 3,
        Level::Debug => 4,
        Level::Trace => 5,
    }
}

/// How verbose a level is.
pub fn level_number(level: Level) -> (r: u8)
    ensures
        r == level_rank(level),
{
    match level {
        Level::Error => 1,
        Level::Warn => 2,
        Level::Info => 3,
        Level::Debug => 4,
        Level::Trace => 5,
    }
}

/// Whether messages show where they were logged from: at debug level and above.
pub fn is_debug_mode(level: Level) -> (r: bool)
    ensures
        r == (level_rank(level) >= 4),
{
    level_number(level) >= 4
}

/// Whether messages of a level go to the standard output (information and more verbose
/// ones) or to the standard error (warnings and errors).
pub fn goes_to_stdout(level: Level) -> (r: bool)
    ensures
        r == (level_rank(level) >= 3),
{
    level_number(level) >= 3
}

/// The color of messages of a level on a terminal.
#[derive(Clone, Copy, Debug, PartialEq, Eq, Structural)]
pub enum Color {
    Red,
    Yellow,
    Green,
    Cyan,
    Purple,
}

/// The color of messages of a level.
pub fn get_level_color(level: Level) -> (r: Color)
    ensures
        r == (match level {
            Level::Error => Color::Red,
            Level::Warn => Color::Yellow,
            Level::Info => Color::Green,
            Level::Debug => Color::Cyan,
            Level::Trace => Color::Purple,
        }),
{
    match level {
        Level::Error => Color::Red,
        Level::Warn => Color::Yellow,
        Level::Info => Color::Green,
        Level::Debug => Color::Cyan,
        Level::Trace => Color::Purple,
    }
}

/// The widths of the file name and the line number in a location: ten and three, the line
/// taking one more place from the file name for each digit it has beyond three.
pub open spec fn location_widths(line: nat) -> (nat, nat)
    decreases line,
{
    widths_from(10, 3, line / 1000)
}

/// Moving a place from the file name to the line number for each digit of `extra`.
pub open spec fn widths_from(file_width: nat, line_width: nat, extra: nat) -> (nat, nat)
    decreases extra,
{
    if extra > 0 && file_width > 0 {
        widths_from((file_width - 1) as nat, line_width + 1, extra / 10)
    } else {
        (file_width, line_width)
    }
}

/// The widths of the file name and the line number in a location (see `location_widths`).
pub fn get_location_widths(line: u32) -> (r: (usize, usize))
    ensures
        (r.0 as nat, r.1 as nat) == location_widths(line as nat),
{
    let mut file_width: usize = 10;
    let mut line_width: usize = 3;
    let mut extra = line / 1000;
    while extra > 0 && file_width > 0
        invariant
            file_width <= 10,
            line_width + file_width == 13,
            widths_from(file_width as nat, line_width as nat, extra as nat) == location_widths(line as nat),
        decreases extra,
    {
        line_width += 1;
        file_width -= 1;
        extra /= 10;
    }
    (file_width, line_width)
}

/// `s` padded at its start with `c` to `width` characters.
pub open spec fn pad_start(s: Seq<char>, width: nat, c: char) -> Seq<char> {
    if s.len() < width { Seq::new((width - s.len()) as nat, |i: int| c) + s } else { s }
}

/// The file of a location as shown: without `src/` at its start, and only its last
/// `width` characters.
pub open spec fn shown_file(file: Seq<char>, width: nat) -> Seq<char> {
    let f = if "src/"@.is_prefix_of(file) { file.skip(4) } else { file };
    if f.len() > width { f.skip(f.len() - width) } else { f }
}

/// Pads a string at its start.
fn pad_start_exec(s: &str, width: usize, c: char) -> (r: String)
    ensures
        r@ == pad_start(s@, width as nat, c),
{
    let n = s.unicode_len();
    let mut r = String::new();
    if n < width {
        let mut k: usize = 0;
        while k < width - n
            invariant
                k <= width - n,
                r@ == Seq::new(k as nat, |i: int| c),
            decreases width - n - k,
        {
            crate::text::push_char(&mut r, c);
            k += 1;
            assert(r@ =~= Seq::new(k as nat, |i: int| c));
        }
    }
    r.append(s);
    proof {
        if n >= width {
            assert(r@ =~= s@);
        }
    }
    r
}

/// The location part of a log line: `[file:line]` with the file right-aligned and the line
/// zero-padded to their widths.
pub open spec fn location_text(file: Seq<char>, line: nat) -> Seq<char> {
    let (fw, lw) = location_widths(line);
    "["@ + pad_start(shown_file(file, fw), fw, ' ') + ":"@ + pad_start(crate::text::decimal(line), lw, '0') + "]"@
}

/// The location part of a log line (see `location_text`).
pub fn format_location(file: &str, line: u32) -> (r: String)
    ensures
        r@ == location_text(file@, line as nat),
{
    let (fw, lw) = get_location_widths(line);
    let chars = crate::text::chars_of(file);
    let prefix = crate::text::chars_of("src/");
    let f: Vec<char> = match crate::storage::backup_group::strip_prefix_chars(chars.as_slice(), prefix.as_slice()) {
        Some(rest) => rest,
        None => crate::text::sub_vec(chars.as_slice(), 0, chars.len()),
    };
    proof {
        reveal_strlit("src/");
        assert(prefix@.len() == 4);
        assert(chars@.subrange(0, chars@.len() as int) =~= chars@);
    }
    let shown = if f.len() > fw {
        crate::text::sub_vec(f.as_slice(), f.len() - fw, f.len())
    } else {
        crate::text::sub_vec(f.as_slice(), 0, f.len())
    };
    proof {
        assert(f@.subrange(0, f@.len() as int) =~= f@);
        assert(f@.subrange(f@.len() - fw, f@.len() as int) =~= f@.skip(f@.len() - fw));
        assert(shown@ == shown_file(file@, fw as nat));
    }
    let shown = crate::text::string_of(shown.as_slice());
    let mut r = String::from_str("[");
    r.append(pad_start_exec(shown.as_str(), fw, ' ').as_str());
    r.append(":");
    r.append(pad_start_exec(crate::text::u64_to_string(line as u64).as_str(), lw, '0').as_str());
    r.append("]");
    r
}

/// A log line: in debug mode with its time and location; with the context (the backup it
/// is about) before the message.
pub open spec fn log_line_spec(debug: Option<(Seq<char>, Seq<char>, nat)>, level: Level, context: Seq<char>, message: Seq<char>) -> Seq<char> {
    let tail = level_name(level) + ": "@ + context + message;
    match debug {
        Some((time, file, line)) => time + " "@ + location_text(file, line) + " "@ + tail,
        None => tail,
    }
}

/// A log line (see `log_line_spec`): `time` is the time as shown, for debug mode.
pub fn format_log_line(debug_location: Option<(&str, &str, u32)>, level: Level, context: &str, message: &str) -> (r: String)
    ensures
        r@ == log_line_spec(match debug_location {
            Some((t, f, l)) => Some((t@, f@, l as nat)),
            None => None,
        }, level, context@, message@),
{
    let mut r = String::new();
    if let Some((time, file, line)) = debug_location {
        r.append(time);
        r.append(" ");
        r.append(format_location(file, line).as_str());
        r.append(" ");
    }
    r.append(get_level_name(level));
    r.append(": ");
    r.append(context);
    r.append(message);
    r
}

/// The context of log messages: the name of the backup they are about.
pub struct GlobalContext {
    context: String,
}

impl GlobalContext {
    /// The context of a backup: its name in brackets, before the messages.
    pub fn new(name: &str) -> (r: GlobalContext)
        ensures
            r.text() == "["@ + name@ + "] "@,
    {
        let mut context = String::from_str("[");
        context.append(name);
        context.append("] ");
        GlobalContext { context }
    }

    /// What the context puts before messages.
    pub closed spec fn text(&self) -> Seq<char> {
        self.context@
    }

    /// What a context, if there is one, puts before messages.
    pub fn get(context: &Option<GlobalContext>) -> (r: String)
        ensures
            r@ == (match context {
                Some(c) => c.text(),
                None => Seq::empty(),
            }),
    {
        match context {
            Some(c) => String::from_str(c.context.as_str()),
            None => String::new(),
        }
    }
}

} // verus!
