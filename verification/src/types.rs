//! The records that the store keeps: levels, callsite kinds and events.

use vstd::prelude::*;
use crate::text::same_text;
use tracing::Level as TracingLevel;

verus! {

/// The severity of a callsite, from the most severe to the most verbose.
#[derive(Debug, Clone, Copy, PartialEq, Eq, PartialOrd, Ord, Hash, Structural)]
pub enum Level {
    Error,
    Warn,
    Info,
    Debug,
    Trace,
}

/// What a callsite describes.
#[derive(Debug, Clone, Copy, PartialEq, Eq, PartialOrd, Ord, Hash, Structural)]
pub enum Kind {
    Event,
    Span,
    Hint,
}

/// What a callsite describes, from what its metadata tells: an event, else
/// a span, else a hint.
pub fn kind_of(is_event: bool, is_span: bool) -> (k: Kind)
    ensures
        k == (if is_event {
            Kind::Event
        } else if is_span {
            Kind::Span
        } else {
            Kind::Hint
        }),
{
    if is_event {
        Kind::Event
    } else if is_span {
        Kind::Span
    } else {
        Kind::Hint
    }
}

/// Where an event stands in the store that recorded it.
pub type EventRef = u64;

/// A record of what a `tracing` layer observed, with field values of type `V`.
#[allow(inconsistent_fields)]
#[derive(Debug, Clone)]
pub enum Event<V> {
    /// A callsite was registered.
    Callsite {
        name: String,
        target: String,
        level: Level,
        file: Option<String>,
        line: Option<u32>,
        module: Option<String>,
        fields: Vec<String>,
        kind: Kind,
    },
    /// A span was created; `parent` is the `tracing` id of its parent span,
    /// not the reference of that span's event.
    Span { parent: Option<u64>, callsite: EventRef, attributes: Vec<V> },
    /// Values were recorded on a span, each under its field's name; no name
    /// comes twice.
    Record { span: EventRef, values: Vec<(String, V)> },
    /// A span was marked as following from another.
    FollowsFrom { span: EventRef, follows: EventRef },
    /// An event happened; `parent` is the `tracing` id of its parent span,
    /// not the reference of that span's event.
    Event { parent: Option<u64>, callsite: EventRef, values: Vec<V> },
    /// A span was entered.
    Enter { span: EventRef },
    /// A span was exited (recorded when the layer is told of the exit).
    Exit { span: EventRef },
    /// A span was closed.
    Close { span: EventRef },
}

#[verifier::external_type_specification]
#[verifier::external_body]
pub struct ExTracingLevel(TracingLevel);

/// What `tracing::Level::as_str` gives for `level`.
pub uninterp spec fn tracing_level_text(level: TracingLevel) -> Seq<char>;

/// Calls `tracing::Level::as_str`, whose source maps each of the five levels
/// to its upper-case name: `ERROR`, `WARN`, `INFO`, `DEBUG` or `TRACE`.
#[verifier::external_body]
fn tracing_level_name(level: &TracingLevel) -> (name: &'static str)
    ensures
        name@ == tracing_level_text(*level),
        name@ == "ERROR"@ || name@ == "WARN"@ || name@ == "INFO"@ || name@ == "DEBUG"@
            || name@ == "TRACE"@,
{
    level.as_str()
}

/// The level that a `tracing` level name stands for; names other than the
/// first four stand for `Trace`.
pub open spec fn level_named(name: Seq<char>) -> Level {
    if name == "ERROR"@ {
        Level::Error
    } else if name == "WARN"@ {
        Level::Warn
    } else if name == "INFO"@ {
        Level::Info
    } else if name == "DEBUG"@ {
        Level::Debug
    } else {
        Level::Trace
    }
}

/// How verbose a level is: 0 for `Error` up to 4 for `Trace`.
pub open spec fn verbosity_of(level: Level) -> nat {
    match level {
        Level::Error => 0,
        Level::Warn => 1,
        Level::Info => 2,
        Level::Debug => 3,
        Level::Trace => 4,
    }
}

/// The five-character label under which a level is shown.
pub open spec fn label_of(level: Level) -> Seq<char> {
    match level {
        Level::Error => "ERROR"@,
        Level::Warn => "WARN "@,
        Level::Info => "INFO "@,
        Level::Debug => "DEBUG"@,
        Level::Trace => "TRACE"@,
    }
}

/// The level that a `tracing` level name stands for (see `level_named`).
pub fn level_from_name(name: &str) -> (level: Level)
    ensures
        level == level_named(name@),
{
    if same_text(name, "ERROR") {
        Level::Error
    } else if same_text(name, "WARN") {
        Level::Warn
    } else if same_text(name, "INFO") {
        Level::Info
    } else if same_text(name, "DEBUG") {
        Level::Debug
    } else {
        Level::Trace
    }
}

impl Level {
    /// The level of this crate that a `tracing` level corresponds to.
    pub fn from(level: TracingLevel) -> (r: Level)
        ensures
            r == level_named(tracing_level_text(level)),
    {
        let name = tracing_level_name(&level);
        level_from_name(name)
    }

    /// How verbose the level is: 0 for `Error` up to 4 for `Trace`.
    pub fn verbosity(self) -> (v: u8)
        ensures
            v as nat == verbosity_of(self),
    {
        match self {
            Level::Error => 0,
            Level::Warn => 1,
            Level::Info => 2,
            Level::Debug => 3,
            Level::Trace => 4,
        }
    }

    /// Whether a callsite of this level is recorded by a layer that records
    /// up to `max`: it is when it is not more verbose than `max`.
    pub fn is_within(self, max: Level) -> (r: bool)
        ensures
            r == (verbosity_of(self) <= verbosity_of(max)),
    {
        self.verbosity() <= max.verbosity()
    }

    /// The five-character label under which the level is shown.
    pub fn label(self) -> (s: &'static str)
        ensures
            s@ == label_of(self),
    {
        match self {
            Level::Error => "ERROR",
            Level::Warn => "WARN ",
            Level::Info => "INFO ",
            Level::Debug => "DEBUG",
            Level::Trace => "TRACE",
        }
    }
}

/// The levels grow in verbosity in their declared order, from `Error` at 0
/// to `Trace` at 4: every level but `Trace` is within `Debug`.
pub proof fn lemma_levels_in_order(level: Level)
    ensures
        verbosity_of(Level::Error) == 0,
        verbosity_of(Level::Error) < verbosity_of(Level::Warn),
        verbosity_of(Level::Warn) < verbosity_of(Level::Info),
        verbosity_of(Level::Info) < verbosity_of(Level::Debug),
        verbosity_of(Level::Debug) < verbosity_of(Level::Trace),
        verbosity_of(Level::Trace) == 4,
        (verbosity_of(level) <= verbosity_of(Level::Debug)) <==> level != Level::Trace,
{
}

/// Each level is shown under the name that `tracing` gives it, padded with
/// blanks to five characters: the label of the level that a name stands
/// for starts with that name and is blank after it.
pub proof fn lemma_labels_are_level_names(name: Seq<char>)
    requires
        name == "ERROR"@ || name == "WARN"@ || name == "INFO"@ || name == "DEBUG"@ || name == "TRACE"@,
    ensures
        label_of(level_named(name)).len() == 5,
        label_of(level_named(name)).subrange(0, name.len() as int) == name,
        forall|k: int| name.len() <= k < 5 ==> #[trigger] label_of(level_named(name))[k] == ' ',
{
    reveal_strlit("ERROR");
    reveal_strlit("WARN");
    reveal_strlit("INFO");
    reveal_strlit("DEBUG");
    reveal_strlit("TRACE");
    reveal_strlit("WARN ");
    reveal_strlit("INFO ");
    let label = label_of(level_named(name));
    assert(label.subrange(0, name.len() as int) =~= name);
}

/// No two levels share a label.
pub proof fn lemma_labels_differ(a: Level, b: Level)
    requires
        a != b,
    ensures
        label_of(a) != label_of(b),
{
    reveal_strlit("ERROR");
    reveal_strlit("DEBUG");
    reveal_strlit("TRACE");
    reveal_strlit("WARN ");
    reveal_strlit("INFO ");
    if label_of(a) == label_of(b) {
        assert(label_of(a)[0] == label_of(b)[0]);
        assert(label_of(a)[4] == label_of(b)[4]);
    }
}

} // verus!
