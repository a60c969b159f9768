//! What the two registrars share: the topic tables, the enums their values
//! are drawn from, and the merge each registration goes through.
//!
//! A merge is additive over disjoint topic sets. A row naming a registered
//! topic with the value it holds is a no-op, so a reload re-registers its own
//! tables and succeeds; a row naming one with a different value refuses the
//! whole call, and no row of that call is applied. Nothing replaces or
//! removes an entry: retiring a topic is a restart.

use vstd::prelude::*;
use vstd::utf8::encode_utf8;
use vstd::string::StringSliceAdditionalSpecFns;
use crate::fanout::Class;
use crate::text::{bytes_eq, decimal, push_decimal};
use vstd::string::StringExecFns;
use crate::topic;

verus! {

/// A topic: the fully-qualified protobuf type name of a record's payload.
pub type Topic = String;

/// A value a registration table holds: one member of a mirrored enum, with
/// the name a registrar spells it by and the number the schema gives it.
pub trait Member: Sized + Copy {
    /// The lowercase name the member is spelled by.
    spec fn spec_name(self) -> Seq<char>;

    /// The schema's number for the member.
    spec fn spec_number(self) -> u32;

    /// Two members with one number are one member.
    proof fn lemma_number_names(a: Self, b: Self)
        ensures
            a.spec_number() == b.spec_number() ==> a == b,
    ;

    /// Every member, in schema order.
    fn all() -> (members: Vec<Self>)
        ensures
            forall|m: Self| #[trigger] members@.contains(m),
    ;

    /// The lowercase name a registrar may spell this member by, and the one
    /// a refusal names it by.
    fn name(self) -> (s: &'static str)
        ensures
            s@ == self.spec_name(),
    ;

    /// The schema's number for this member.
    fn number(self) -> (n: u32)
        ensures
            n == self.spec_number(),
    ;

    /// The member spelled `name`, exactly.
    fn from_name(name: &[u8]) -> (m: Option<Self>)
        ensures
            m matches Some(x) ==> name@ == encode_utf8(x.spec_name()),
            m is None ==> forall|x: Self| name@ != #[trigger] encode_utf8(x.spec_name()),
    ;

    /// The member the schema numbers `number`.
    fn from_number(number: u32) -> (m: Option<Self>)
        ensures
            m matches Some(x) ==> x.spec_number() == number,
            m is None ==> forall|x: Self| #[trigger] x.spec_number() != number,
    ;
}

/// The drop policy the broker applies to a record under pressure.
///
/// Mirrors `dcsbridge.broker.RecordClass`, whose numbers cross the wire. The
/// schema's `UNSPECIFIED` member has no counterpart here, because a topic
/// with no class is refused rather than defaulted.
#[derive(Clone, Copy, Debug, Eq, Hash, PartialEq, Structural)]
pub enum RecordClass {
    /// Survives pressure until the ring is full of it.
    Durable,
    /// The first evicted when the ring runs out of room.
    Lossy,
    /// Inbound, carrying something the receiving state is asked to do.
    Command,
    /// Retained and replayed, and never evicted to make room.
    Lifecycle,
}

impl Member for RecordClass {
    open spec fn spec_name(self) -> Seq<char> {
        match self {
            RecordClass::Durable => "durable"@,
            RecordClass::Lossy => "lossy"@,
            RecordClass::Command => "command"@,
            RecordClass::Lifecycle => "lifecycle"@,
        }
    }

    open spec fn spec_number(self) -> u32 {
        match self {
            RecordClass::Durable => 1,
            RecordClass::Lossy => 2,
            RecordClass::Command => 3,
            RecordClass::Lifecycle => 4,
        }
    }

    proof fn lemma_number_names(a: Self, b: Self) {
    }

    fn all() -> (members: Vec<Self>) {
        let members = vec![
            RecordClass::Durable,
            RecordClass::Lossy,
            RecordClass::Command,
            RecordClass::Lifecycle,
        ];
        proof {
            assert forall|m: Self| #[trigger] members@.contains(m) by {
                match m {
                    RecordClass::Durable => assert(members@[0] == m),
                    RecordClass::Lossy => assert(members@[1] == m),
                    RecordClass::Command => assert(members@[2] == m),
                    RecordClass::Lifecycle => assert(members@[3] == m),
                }
            }
        }
        members
    }

    fn name(self) -> (s: &'static str) {
        match self {
            RecordClass::Durable => "durable",
            RecordClass::Lossy => "lossy",
            RecordClass::Command => "command",
            RecordClass::Lifecycle => "lifecycle",
        }
    }

    fn number(self) -> (n: u32) {
        match self {
            RecordClass::Durable => 1,
            RecordClass::Lossy => 2,
            RecordClass::Command => 3,
            RecordClass::Lifecycle => 4,
        }
    }

    fn from_name(name: &[u8]) -> (m: Option<Self>) {
        if bytes_eq(name, "durable".as_bytes()) {
            Some(RecordClass::Durable)
        } else if bytes_eq(name, "lossy".as_bytes()) {
            Some(RecordClass::Lossy)
        } else if bytes_eq(name, "command".as_bytes()) {
            Some(RecordClass::Command)
        } else if bytes_eq(name, "lifecycle".as_bytes()) {
            Some(RecordClass::Lifecycle)
        } else {
            None
        }
    }

    fn from_number(number: u32) -> (m: Option<Self>) {
        match number {
            1 => Some(RecordClass::Durable),
            2 => Some(RecordClass::Lossy),
            3 => Some(RecordClass::Command),
            4 => Some(RecordClass::Lifecycle),
            _ => None,
        }
    }
}

impl RecordClass {
    /// The ring a record of this class takes outbound. `Command` is an
    /// inbound class; a record on such a topic committed outbound is not to
    /// be lost silently and marks no boundary, so it goes with `Durable`.
    pub fn outbound(self) -> (c: Class)
        ensures
            c == outbound_class(self),
    {
        match self {
            RecordClass::Lossy => Class::Lossy,
            RecordClass::Durable | RecordClass::Command => Class::Durable,
            RecordClass::Lifecycle => Class::Lifecycle,
        }
    }
}

/// The ring each record class takes outbound.
pub open spec fn outbound_class(c: RecordClass) -> Class {
    match c {
        RecordClass::Lossy => Class::Lossy,
        RecordClass::Durable | RecordClass::Command => Class::Durable,
        RecordClass::Lifecycle => Class::Lifecycle,
    }
}

/// The Lua state a record routes to. Mirrors `dcsbridge.broker.Target`.
#[derive(Clone, Copy, Debug, Eq, Hash, PartialEq, Structural)]
pub enum Target {
    /// Injected into the `"server"` state, and reloaded with the mission.
    SimDriver,
    /// Loaded once at DCS start, and outlives every mission.
    HookDriver,
}

impl Member for Target {
    open spec fn spec_name(self) -> Seq<char> {
        match self {
            Target::SimDriver => "sim_driver"@,
            Target::HookDriver => "hook_driver"@,
        }
    }

    open spec fn spec_number(self) -> u32 {
        match self {
            Target::SimDriver => 1,
            Target::HookDriver => 2,
        }
    }

    proof fn lemma_number_names(a: Self, b: Self) {
    }

    fn all() -> (members: Vec<Self>) {
        let members = vec![Target::SimDriver, Target::HookDriver];
        proof {
            assert forall|m: Self| #[trigger] members@.contains(m) by {
                match m {
                    Target::SimDriver => assert(members@[0] == m),
                    Target::HookDriver => assert(members@[1] == m),
                }
            }
        }
        members
    }

    fn name(self) -> (s: &'static str) {
        match self {
            Target::SimDriver => "sim_driver",
            Target::HookDriver => "hook_driver",
        }
    }

    fn number(self) -> (n: u32) {
        match self {
            Target::SimDriver => 1,
            Target::HookDriver => 2,
        }
    }

    fn from_name(name: &[u8]) -> (m: Option<Self>) {
        if bytes_eq(name, "sim_driver".as_bytes()) {
            Some(Target::SimDriver)
        } else if bytes_eq(name, "hook_driver".as_bytes()) {
            Some(Target::HookDriver)
        } else {
            None
        }
    }

    fn from_number(number: u32) -> (m: Option<Self>) {
        match number {
            1 => Some(Target::SimDriver),
            2 => Some(Target::HookDriver),
            _ => None,
        }
    }
}

/// The permission a connection needs before the broker accepts a message.
/// Mirrors `dcsbridge.broker.Capability`, whose numbers 1 to 49 are the
/// bridge's.
#[derive(Clone, Copy, Debug, Eq, Hash, PartialEq, Structural)]
pub enum Capability {
    /// Receive records.
    Read,
    /// Send a command.
    Command,
    /// Reload configuration.
    Reload,
}

impl Member for Capability {
    open spec fn spec_name(self) -> Seq<char> {
        match self {
            Capability::Read => "read"@,
            Capability::Command => "command"@,
            Capability::Reload => "reload"@,
        }
    }

    open spec fn spec_number(self) -> u32 {
        match self {
            Capability::Read => 1,
            Capability::Command => 2,
            Capability::Reload => 3,
        }
    }

    proof fn lemma_number_names(a: Self, b: Self) {
    }

    fn all() -> (members: Vec<Self>) {
        let members = vec![Capability::Read, Capability::Command, Capability::Reload];
        proof {
            assert forall|m: Self| #[trigger] members@.contains(m) by {
                match m {
                    Capability::Read => assert(members@[0] == m),
                    Capability::Command => assert(members@[1] == m),
                    Capability::Reload => assert(members@[2] == m),
                }
            }
        }
        members
    }

    fn name(self) -> (s: &'static str) {
        match self {
            Capability::Read => "read",
            Capability::Command => "command",
            Capability::Reload => "reload",
        }
    }

    fn number(self) -> (n: u32) {
        match self {
            Capability::Read => 1,
            Capability::Command => 2,
            Capability::Reload => 3,
        }
    }

    fn from_name(name: &[u8]) -> (m: Option<Self>) {
        if bytes_eq(name, "read".as_bytes()) {
            Some(Capability::Read)
        } else if bytes_eq(name, "command".as_bytes()) {
            Some(Capability::Command)
        } else if bytes_eq(name, "reload".as_bytes()) {
            Some(Capability::Reload)
        } else {
            None
        }
    }

    fn from_number(number: u32) -> (m: Option<Self>) {
        match number {
            1 => Some(Capability::Read),
            2 => Some(Capability::Command),
            3 => Some(Capability::Reload),
            _ => None,
        }
    }
}

/// Why a registration was refused, with none of it applied.
#[derive(Clone, Debug, Eq, PartialEq)]
#[allow(inconsistent_fields)]
pub enum Refusal {
    /// A row named a topic with a value other than the one held, by the
    /// table or by an earlier row of the same call.
    Conflict {
        /// The topic the call named.
        topic: Topic,
        /// What the topic is registered as.
        held: &'static str,
        /// What the call offered instead.
        offered: &'static str,
    },
    /// The call's fresh `LIFECYCLE` topics would take the retained set past
    /// `max_lifecycle_topics`.
    OverCap {
        /// `LIFECYCLE` topics already bound to a slot.
        bound: u32,
        /// `LIFECYCLE` topics the call would bind.
        offered: u32,
        /// `max_lifecycle_topics`.
        cap: u32,
    },
}

/// The words a refusal is reported in.
pub open spec fn refusal_text(r: Refusal) -> Seq<char> {
    match r {
        Refusal::Conflict { topic, held, offered } => topic@ + " is registered as "@ + held@
            + ", not "@ + offered@,
        Refusal::OverCap { bound, offered, cap } => decimal(offered as nat)
            + " LIFECYCLE topics beside "@ + decimal(bound as nat)
            + " bound would exceed max_lifecycle_topics "@ + decimal(cap as nat),
    }
}

impl Refusal {
    /// The refusal in words.
    pub fn to_string(&self) -> (s: String)
        ensures
            s@ == refusal_text(*self),
    {
        match self {
            Refusal::Conflict { topic, held, offered } => conflict_words(topic.as_str(), held, offered),
            Refusal::OverCap { bound, offered, cap } => over_cap_words(*bound, *offered, *cap),
        }
    }
}

/// A conflict in words: the topic, what it is registered as, and what was
/// offered, as the sentence `refusal_text` spells.
fn conflict_words(topic: &str, held: &str, offered: &str) -> (s: String)
    ensures
        s@ == topic@ + " is registered as "@ + held@ + ", not "@ + offered@,
{
    let mut s = String::from_str(topic);
    s.append(" is registered as ");
    s.append(held);
    s.append(", not ");
    s.append(offered);
    s
}

/// An over-cap refusal in words, each number in decimal, as the sentence
/// `refusal_text` spells.
fn over_cap_words(bound: u32, offered: u32, cap: u32) -> (s: String)
    ensures
        s@ == decimal(offered as nat) + " LIFECYCLE topics beside "@ + decimal(bound as nat)
            + " bound would exceed max_lifecycle_topics "@ + decimal(cap as nat),
{
    let mut s = String::new();
    push_decimal(&mut s, offered as u64);
    s.append(" LIFECYCLE topics beside ");
    push_decimal(&mut s, bound as u64);
    s.append(" bound would exceed max_lifecycle_topics ");
    push_decimal(&mut s, cap as u64);
    s
}

/// A table's rows as the specification reads them: each topic's characters
/// and its value.
pub open spec fn rows_view<M>(rows: Seq<(Topic, M)>) -> Seq<(Seq<char>, M)> {
    rows.map_values(|r: (Topic, M)| (r.0@, r.1))
}

/// The value the first row naming `k` holds.
pub open spec fn lookup<M>(rows: Seq<(Seq<char>, M)>, k: Seq<char>) -> Option<M>
    decreases rows.len(),
{
    if rows.len() == 0 {
        None
    } else if rows[0].0 == k {
        Some(rows[0].1)
    } else {
        lookup(rows.drop_first(), k)
    }
}

/// The value the first row whose topic is spelled by the bytes `b` holds.
pub open spec fn lookup_bytes<M>(rows: Seq<(Seq<char>, M)>, b: Seq<u8>) -> Option<M>
    decreases rows.len(),
{
    if rows.len() == 0 {
        None
    } else if encode_utf8(rows[0].0) == b {
        Some(rows[0].1)
    } else {
        lookup_bytes(rows.drop_first(), b)
    }
}

/// A merge, row by row: a row new to the table is added, a row repeating
/// the table is passed over, and the first row disagreeing with the table
/// or with an earlier row names the topic, the value held and the value
/// offered.
pub open spec fn fold_rows<M>(table: Seq<(Seq<char>, M)>, rows: Seq<(Seq<char>, M)>) -> Result<
    Seq<(Seq<char>, M)>,
    (Seq<char>, M, M),
>
    decreases rows.len(),
{
    if rows.len() == 0 {
        Ok(table)
    } else {
        let t = rows[0].0;
        let v = rows[0].1;
        match lookup(table, t) {
            Some(h) => if h != v {
                Err((t, h, v))
            } else {
                fold_rows(table, rows.drop_first())
            },
            None => fold_rows(table.push((t, v)), rows.drop_first()),
        }
    }
}

/// Looking up in two tables end to end looks in the first, then the second.
pub proof fn lemma_lookup_concat<M>(a: Seq<(Seq<char>, M)>, b: Seq<(Seq<char>, M)>, k: Seq<char>)
    ensures
        lookup(a + b, k) == match lookup(a, k) {
            Some(v) => Some(v),
            None => lookup(b, k),
        },
    decreases a.len(),
{
    if a.len() > 0 {
        assert((a + b).drop_first() =~= a.drop_first() + b);
        lemma_lookup_concat(a.drop_first(), b, k);
    } else {
        assert(a + b =~= b);
    }
}

/// Law: a merge whose every row repeats the table adds nothing and is not
/// refused.
pub proof fn lemma_repeat_is_no_op<M>(table: Seq<(Seq<char>, M)>, rows: Seq<(Seq<char>, M)>)
    requires
        forall|i: int| 0 <= i < rows.len() ==> lookup(table, #[trigger] rows[i].0) == Some(rows[i].1),
    ensures
        fold_rows(table, rows) == Ok::<Seq<(Seq<char>, M)>, (Seq<char>, M, M)>(table),
    decreases rows.len(),
{
    if rows.len() > 0 {
        assert(lookup(table, rows[0].0) == Some(rows[0].1));
        lemma_repeat_is_no_op(table, rows.drop_first());
    }
}

/// Law: a merge only ever adds rows at the end of the table, and only rows
/// for topics the table did not hold.
pub proof fn lemma_fold_extends<M>(table: Seq<(Seq<char>, M)>, rows: Seq<(Seq<char>, M)>)
    ensures
        fold_rows(table, rows) matches Ok(t) ==> {
            &&& t.len() >= table.len()
            &&& t.subrange(0, table.len() as int) == table
            &&& forall|i: int| table.len() <= i < t.len() ==> lookup(table, #[trigger] t[i].0) is None
        },
    decreases rows.len(),
{
    if rows.len() > 0 {
        let t0 = rows[0].0;
        let v0 = rows[0].1;
        match lookup(table, t0) {
            Some(h) => {
                lemma_fold_extends(table, rows.drop_first());
            },
            None => {
                let bigger = table.push((t0, v0));
                lemma_fold_extends(bigger, rows.drop_first());
                if let Ok(t) = fold_rows(table, rows) {
                    assert(t.subrange(0, bigger.len() as int) == bigger);
                    assert(t.subrange(0, table.len() as int) =~= table) by {
                        assert forall|j: int| 0 <= j < table.len() implies t[j] == table[j] by {
                            assert(t.subrange(0, bigger.len() as int)[j] == bigger[j]);
                        }
                    }
                    assert forall|i: int| table.len() <= i < t.len() implies lookup(
                        table,
                        #[trigger] t[i].0,
                    ) is None by {
                        if i == table.len() {
                            assert(t.subrange(0, bigger.len() as int)[i] == bigger[i]);
                        } else {
                            lemma_lookup_concat(table, seq![(t0, v0)], t[i].0);
                            assert(bigger =~= table + seq![(t0, v0)]);
                        }
                    }
                }
            },
        }
    }
}

/// Whether no topic occurs twice in `rows`.
pub open spec fn topics_distinct<M>(rows: Seq<(Seq<char>, M)>) -> bool {
    forall|i: int, j: int| 0 <= i < j < rows.len() ==> #[trigger] rows[i].0 != #[trigger] rows[j].0
}

/// Whether every row of `rows` agrees with `table` where the table holds
/// its topic, and with every earlier row naming the same topic.
pub open spec fn rows_agree<M>(table: Seq<(Seq<char>, M)>, rows: Seq<(Seq<char>, M)>) -> bool {
    &&& forall|i: int|
        0 <= i < rows.len() ==> (lookup(table, #[trigger] rows[i].0) matches Some(h) ==> h == rows[i].1)
    &&& forall|j: int, i: int|
        #![trigger rows[j], rows[i]]
        0 <= j < i < rows.len() && rows[j].0 == rows[i].0 ==> rows[j].1 == rows[i].1
}

/// The topics `rows` name that `table` does not hold.
pub open spec fn fresh_topics<M>(table: Seq<(Seq<char>, M)>, rows: Seq<(Seq<char>, M)>) -> Set<Seq<char>> {
    Set::new(|k: Seq<char>| lookup(table, k) is None && lookup(rows, k) is Some)
}

/// A topic is found exactly when some row names it, with the value of a
/// row that names it.
pub proof fn lemma_lookup_found<M>(s: Seq<(Seq<char>, M)>, k: Seq<char>)
    ensures
        lookup(s, k) is None <==> forall|i: int| 0 <= i < s.len() ==> #[trigger] s[i].0 != k,
        lookup(s, k) matches Some(v) ==> exists|i: int| 0 <= i < s.len() && #[trigger] s[i] == (k, v),
    decreases s.len(),
{
    if s.len() > 0 {
        lemma_lookup_found(s.drop_first(), k);
        if s[0].0 != k {
            if lookup(s, k) is None {
                assert forall|i: int| 0 <= i < s.len() implies #[trigger] s[i].0 != k by {
                    if i > 0 {
                        assert(s[i] == s.drop_first()[i - 1]);
                    }
                }
            } else {
                let v = lookup(s, k)->0;
                let i = choose|i: int| 0 <= i < s.drop_first().len() && #[trigger] s.drop_first()[i] == (k, v);
                assert(s[i + 1] == (k, v));
            }
            if forall|i: int| 0 <= i < s.len() ==> #[trigger] s[i].0 != k {
                assert forall|i: int| 0 <= i < s.drop_first().len() implies #[trigger] s.drop_first()[i].0 != k by {
                    assert(s.drop_first()[i] == s[i + 1]);
                }
            }
        } else {
            assert(s[0] == (k, s[0].1));
        }
    }
}

/// Looking up in a table with a row appended.
proof fn lemma_lookup_push<M>(s: Seq<(Seq<char>, M)>, k: Seq<char>, v: M, x: Seq<char>)
    ensures
        lookup(s.push((k, v)), x) == match lookup(s, x) {
            Some(w) => Some(w),
            None => if x == k {
                Some(v)
            } else {
                None
            },
        },
{
    lemma_lookup_concat(s, seq![(k, v)], x);
    assert(s.push((k, v)) =~= s + seq![(k, v)]);
    assert(seq![(k, v)].drop_first() =~= Seq::<(Seq<char>, M)>::empty());
    assert(lookup(Seq::<(Seq<char>, M)>::empty(), x) is None);
    assert(lookup(seq![(k, v)], x) == if x == k {
        Some(v)
    } else {
        None
    });
}

/// A merge goes through exactly when its rows agree, and what it leaves
/// answers each topic as the table did, or as its rows did where the
/// table held nothing; over a table with no topic twice it leaves none
/// twice.
proof fn lemma_fold_law<M>(table: Seq<(Seq<char>, M)>, rows: Seq<(Seq<char>, M)>)
    ensures
        (fold_rows(table, rows) is Ok) == rows_agree(table, rows),
        fold_rows(table, rows) matches Ok(t) ==> forall|x: Seq<char>|
            #[trigger] lookup(t, x) == match lookup(table, x) {
                Some(v) => Some(v),
                None => lookup(rows, x),
            },
        topics_distinct(table) && fold_rows(table, rows) is Ok ==> topics_distinct(fold_rows(table, rows)->Ok_0),
    decreases rows.len(),
{
    if rows.len() > 0 {
        let k = rows[0].0;
        let v = rows[0].1;
        let rest = rows.drop_first();
        assert forall|i: int| 0 <= i < rest.len() implies #[trigger] rest[i] == rows[i + 1] by {}
        match lookup(table, k) {
            Some(h) => {
                lemma_fold_law(table, rest);
                if h == v {
                    assert(rows_agree(table, rows) == rows_agree(table, rest)) by {
                        if rows_agree(table, rows) {
                            assert forall|j: int, i: int|
                                #![trigger rest[j], rest[i]]
                                0 <= j < i < rest.len() && rest[j].0 == rest[i].0 implies rest[j].1 == rest[i].1 by {
                                assert(rows[j + 1] == rest[j] && rows[i + 1] == rest[i]);
                            }
                            assert forall|i: int| 0 <= i < rest.len() implies (lookup(table, #[trigger] rest[i].0) matches Some(
                                w,
                            ) ==> w == rest[i].1) by {
                                assert(rows[i + 1] == rest[i]);
                            }
                        }
                        if rows_agree(table, rest) {
                            assert forall|i: int| 0 <= i < rows.len() implies (lookup(table, #[trigger] rows[i].0) matches Some(
                                w,
                            ) ==> w == rows[i].1) by {
                                if i > 0 {
                                    assert(rows[i] == rest[i - 1]);
                                }
                            }
                            assert forall|j: int, i: int|
                                #![trigger rows[j], rows[i]]
                                0 <= j < i < rows.len() && rows[j].0 == rows[i].0 implies rows[j].1 == rows[i].1 by {
                                assert(rows[i] == rest[i - 1]);
                                if j > 0 {
                                    assert(rows[j] == rest[j - 1]);
                                } else {
                                    assert(lookup(table, rest[i - 1].0) == Some(v));
                                }
                            }
                        }
                    }
                    if let Ok(t) = fold_rows(table, rows) {
                        assert forall|x: Seq<char>| #[trigger] lookup(t, x) == match lookup(table, x) {
                            Some(w) => Some(w),
                            None => lookup(rows, x),
                        } by {
                            if lookup(table, x) is None {
                                assert(x != k);
                            }
                        }
                    }
                } else {
                    assert(!(lookup(table, rows[0].0) matches Some(w) ==> w == rows[0].1));
                }
            },
            None => {
                let bigger = table.push((k, v));
                lemma_fold_law(bigger, rest);
                assert forall|x: Seq<char>| #[trigger] lookup(bigger, x) == match lookup(table, x) {
                    Some(w) => Some(w),
                    None => if x == k {
                        Some(v)
                    } else {
                        None
                    },
                } by {
                    lemma_lookup_push(table, k, v, x);
                }
                assert(rows_agree(table, rows) == rows_agree(bigger, rest)) by {
                    if rows_agree(table, rows) {
                        assert forall|i: int| 0 <= i < rest.len() implies (lookup(bigger, #[trigger] rest[i].0) matches Some(
                            w,
                        ) ==> w == rest[i].1) by {
                            assert(rows[i + 1] == rest[i]);
                            if lookup(table, rest[i].0) is None && rest[i].0 == k {
                                assert(rows[0].0 == rows[i + 1].0);
                            }
                        }
                        assert forall|j: int, i: int|
                            #![trigger rest[j], rest[i]]
                            0 <= j < i < rest.len() && rest[j].0 == rest[i].0 implies rest[j].1 == rest[i].1 by {
                            assert(rows[j + 1] == rest[j] && rows[i + 1] == rest[i]);
                        }
                    }
                    if rows_agree(bigger, rest) {
                        assert forall|i: int| 0 <= i < rows.len() implies (lookup(table, #[trigger] rows[i].0) matches Some(
                            w,
                        ) ==> w == rows[i].1) by {
                            if i > 0 {
                                assert(rows[i] == rest[i - 1]);
                                assert(lookup(bigger, rest[i - 1].0) == lookup(table, rest[i - 1].0) || lookup(
                                    table,
                                    rest[i - 1].0,
                                ) is None);
                            }
                        }
                        assert forall|j: int, i: int|
                            #![trigger rows[j], rows[i]]
                            0 <= j < i < rows.len() && rows[j].0 == rows[i].0 implies rows[j].1 == rows[i].1 by {
                            assert(rows[i] == rest[i - 1]);
                            if j > 0 {
                                assert(rows[j] == rest[j - 1]);
                            } else {
                                assert(lookup(bigger, rest[i - 1].0) == Some(v));
                            }
                        }
                    }
                }
                if let Ok(t) = fold_rows(table, rows) {
                    assert forall|x: Seq<char>| #[trigger] lookup(t, x) == match lookup(table, x) {
                        Some(w) => Some(w),
                        None => lookup(rows, x),
                    } by {
                        assert(lookup(t, x) == match lookup(bigger, x) {
                            Some(w) => Some(w),
                            None => lookup(rest, x),
                        });
                    }
                }
                if topics_distinct(table) {
                    lemma_lookup_found(table, k);
                    assert(topics_distinct(bigger)) by {
                        assert forall|i: int, j: int| 0 <= i < j < bigger.len() implies #[trigger] bigger[i].0
                            != #[trigger] bigger[j].0 by {
                            if j == table.len() {
                                assert(bigger[j].0 == k);
                                assert(bigger[i] == table[i]);
                            } else {
                                assert(bigger[i] == table[i] && bigger[j] == table[j]);
                            }
                        }
                    }
                }
            },
        }
    }
}

/// A merge adds at most one row per row merged.
proof fn lemma_fold_grows_at_most<M>(table: Seq<(Seq<char>, M)>, rows: Seq<(Seq<char>, M)>)
    ensures
        fold_rows(table, rows) matches Ok(t) ==> t.len() <= table.len() + rows.len(),
    decreases rows.len(),
{
    if rows.len() > 0 {
        match lookup(table, rows[0].0) {
            Some(h) => lemma_fold_grows_at_most(table, rows.drop_first()),
            None => lemma_fold_grows_at_most(table.push((rows[0].0, rows[0].1)), rows.drop_first()),
        }
    }
}

/// Over a table with no topic twice, a merge that goes through adds one row
/// per topic its rows name that the table did not hold.
proof fn lemma_fresh_count<M>(table: Seq<(Seq<char>, M)>, rows: Seq<(Seq<char>, M)>)
    requires
        topics_distinct(table),
        fold_rows(table, rows) is Ok,
    ensures
        fresh_topics(table, rows).finite(),
        fold_rows(table, rows)->Ok_0.len() - table.len() == fresh_topics(table, rows).len(),
{
    let t = fold_rows(table, rows)->Ok_0;
    lemma_fold_law(table, rows);
    lemma_fold_extends(table, rows);
    let added = t.subrange(table.len() as int, t.len() as int).map_values(|r: (Seq<char>, M)| r.0);
    assert forall|i: int| 0 <= i < added.len() implies #[trigger] added[i] == t[i + table.len()].0 by {}
    assert(added.no_duplicates()) by {
        assert forall|i: int, j: int| 0 <= i < added.len() && 0 <= j < added.len() && i != j implies added[i]
            != added[j] by {
            assert(added[i] == t[i + table.len()].0 && added[j] == t[j + table.len()].0);
            if i < j {
                assert(t[i + table.len()].0 != t[j + table.len()].0);
            } else {
                assert(t[j + table.len()].0 != t[i + table.len()].0);
            }
        }
    }
    assert(added.to_set() =~= fresh_topics(table, rows)) by {
        assert forall|x: Seq<char>| added.to_set().contains(x) <==> fresh_topics(table, rows).contains(x) by {
            if added.contains(x) {
                let i = choose|i: int| 0 <= i < added.len() && added[i] == x;
                let p = i + table.len();
                assert(table.len() <= p < t.len());
                assert(added[i] == t[p].0);
                assert(lookup(table, t[p].0) is None);
                lemma_lookup_found(t, x);
                assert(t[p].0 == x);
                assert(lookup(t, x) is Some);
            }
            if fresh_topics(table, rows).contains(x) {
                lemma_lookup_found(t, x);
                lemma_lookup_found(table, x);
                let v = lookup(t, x)->0;
                let p = choose|i: int| 0 <= i < t.len() && #[trigger] t[i] == (x, v);
                if p < table.len() {
                    assert(t.subrange(0, table.len() as int)[p] == table[p]);
                    assert(table[p].0 == x);
                    assert(false);
                }
                assert(added[p - table.len()] == t[p].0);
                assert(added[p - table.len()] == x);
            }
        }
    }
    added.unique_seq_to_set();
    vstd::seq_lib::seq_to_set_is_finite(added);
}

/// A merge, whole or not at all. Over a table with no topic twice, a merge
/// of `rows` goes through exactly when no row disagrees with the table or
/// with an earlier row naming the same topic; and then the table after is
/// the table before with, at its end, one row for each topic the rows name
/// that it did not hold, holding the value the first such row gave. It
/// holds no topic twice, and it grew by the number of such topics.
pub proof fn law_a_merge_adds_each_fresh_topic_once<M>(table: Seq<(Seq<char>, M)>, rows: Seq<(Seq<char>, M)>)
    requires
        topics_distinct(table),
    ensures
        (fold_rows(table, rows) is Ok) == rows_agree(table, rows),
        fold_rows(table, rows) matches Ok(t) ==> {
            &&& t.subrange(0, table.len() as int) == table
            &&& topics_distinct(t)
            &&& forall|x: Seq<char>| #[trigger] lookup(t, x) == match lookup(table, x) {
                Some(v) => Some(v),
                None => lookup(rows, x),
            }
            &&& forall|i: int| table.len() <= i < t.len() ==> fresh_topics(table, rows).contains(#[trigger] t[i].0)
            &&& fresh_topics(table, rows).finite()
            &&& t.len() == table.len() + fresh_topics(table, rows).len()
        },
{
    lemma_fold_law(table, rows);
    lemma_fold_extends(table, rows);
    if let Ok(t) = fold_rows(table, rows) {
        lemma_fresh_count(table, rows);
        assert forall|i: int| table.len() <= i < t.len() implies fresh_topics(table, rows).contains(#[trigger] t[i].0) by {
            lemma_lookup_found(t, t[i].0);
        }
    }
}

/// In a table with no topic twice, each row's topic finds that row's value.
pub proof fn lemma_lookup_distinct<M>(s: Seq<(Seq<char>, M)>, p: int)
    requires
        topics_distinct(s),
        0 <= p < s.len(),
    ensures
        lookup(s, s[p].0) == Some(s[p].1),
{
    let k = s[p].0;
    lemma_lookup_found(s, k);
    let v = lookup(s, k)->0;
    let i = choose|i: int| 0 <= i < s.len() && #[trigger] s[i] == (k, v);
    if i < p {
        assert(s[i].0 != s[p].0);
    } else if p < i {
        assert(s[p].0 != s[i].0);
    }
}

/// What `lifecycle_topics` picks out of `s`: the topic of each row
/// registered `LIFECYCLE`, and no other, each once when no topic is in `s`
/// twice.
proof fn lemma_lifecycle_topics_from(s: Seq<(Seq<char>, RecordClass)>)
    ensures
        forall|j: int|
            0 <= j < lifecycle_topics(s).len() ==> exists|i: int|
                0 <= i < s.len() && #[trigger] s[i] == (#[trigger] lifecycle_topics(s)[j], RecordClass::Lifecycle),
        forall|i: int| 0 <= i < s.len() && #[trigger] s[i].1 == RecordClass::Lifecycle ==> lifecycle_topics(s).contains(s[i].0),
        topics_distinct(s) ==> lifecycle_topics(s).no_duplicates(),
    decreases s.len(),
{
    if s.len() > 0 {
        let d = s.drop_last();
        let n = s.len() - 1;
        lemma_lifecycle_topics_from(d);
        let l = lifecycle_topics(s);
        let ld = lifecycle_topics(d);
        assert forall|i: int| 0 <= i < d.len() implies #[trigger] d[i] == s[i] by {}
        assert forall|j: int| 0 <= j < ld.len() implies #[trigger] l[j] == ld[j] by {}
        assert forall|j: int| 0 <= j < l.len() implies exists|i: int|
            0 <= i < s.len() && #[trigger] s[i] == (#[trigger] l[j], RecordClass::Lifecycle) by {
            if j < ld.len() {
                let i = choose|i: int| 0 <= i < d.len() && #[trigger] d[i] == (#[trigger] ld[j], RecordClass::Lifecycle);
                assert(s[i] == d[i]);
            } else {
                assert(l[j] == s[n].0);
                assert(s[n] == (l[j], RecordClass::Lifecycle));
            }
        }
        assert forall|i: int| 0 <= i < s.len() && #[trigger] s[i].1 == RecordClass::Lifecycle implies l.contains(s[i].0) by {
            if i < n {
                assert(d[i].1 == RecordClass::Lifecycle);
                assert(ld.contains(d[i].0));
                let j = choose|j: int| 0 <= j < ld.len() && ld[j] == d[i].0;
                assert(l[j] == s[i].0);
            } else {
                assert(l[l.len() - 1] == s[n].0);
            }
        }
        if topics_distinct(s) {
            assert(topics_distinct(d)) by {
                assert forall|i: int, j: int| 0 <= i < j < d.len() implies #[trigger] d[i].0 != #[trigger] d[j].0 by {
                    assert(d[i] == s[i] && d[j] == s[j]);
                }
            }
            assert forall|a: int, b: int| 0 <= a < l.len() && 0 <= b < l.len() && a != b implies l[a] != l[b] by {
                if a < ld.len() && b < ld.len() {
                } else if a < ld.len() {
                    let i = choose|i: int| 0 <= i < d.len() && #[trigger] d[i] == (#[trigger] ld[a], RecordClass::Lifecycle);
                    assert(l[b] == s[n].0);
                    assert(s[i].0 != s[n].0);
                } else {
                    let i = choose|i: int| 0 <= i < d.len() && #[trigger] d[i] == (#[trigger] ld[b], RecordClass::Lifecycle);
                    assert(l[a] == s[n].0);
                    assert(s[i].0 != s[n].0);
                }
            }
        }
    }
}

/// Adding replies keeps a set with no topic twice free of repeats.
proof fn lemma_add_replies_distinct(set: Seq<Seq<char>>, topics: Seq<Seq<char>>)
    requires
        set.no_duplicates(),
    ensures
        add_replies(set, topics).no_duplicates(),
    decreases topics.len(),
{
    if topics.len() > 0 {
        if set.contains(topics[0]) {
            lemma_add_replies_distinct(set, topics.drop_first());
        } else {
            let bigger = set.push(topics[0]);
            assert(bigger.no_duplicates()) by {
                assert forall|i: int, j: int| 0 <= i < bigger.len() && 0 <= j < bigger.len() && i != j implies bigger[i]
                    != bigger[j] by {
                    if i == set.len() {
                        assert(set[j] == bigger[j]);
                    } else if j == set.len() {
                        assert(set[i] == bigger[i]);
                    }
                }
            }
            lemma_add_replies_distinct(bigger, topics.drop_first());
        }
    }
}

/// A class merge that goes through keeps the class table free of repeats,
/// and, with the fresh `LIFECYCLE` topics bound after the old ones, every
/// bound topic bound once and registered `LIFECYCLE`.
proof fn lemma_classes_merge_sound(
    classes: Seq<(Seq<char>, RecordClass)>,
    slots: Seq<Seq<char>>,
    rows: Seq<(Seq<char>, RecordClass)>,
)
    requires
        topics_distinct(classes),
        slots.no_duplicates(),
        forall|i: int| 0 <= i < slots.len() ==> lookup(classes, #[trigger] slots[i]) == Some(RecordClass::Lifecycle),
        fold_rows(classes, rows) is Ok,
    ensures
        topics_distinct(fold_rows(classes, rows)->Ok_0),
        (slots + lifecycle_topics(
            fold_rows(classes, rows)->Ok_0.subrange(classes.len() as int, fold_rows(classes, rows)->Ok_0.len() as int),
        )).no_duplicates(),
        forall|i: int|
            0 <= i < (slots + lifecycle_topics(
                fold_rows(classes, rows)->Ok_0.subrange(classes.len() as int, fold_rows(classes, rows)->Ok_0.len() as int),
            )).len() ==> lookup(
                fold_rows(classes, rows)->Ok_0,
                #[trigger] (slots + lifecycle_topics(
                    fold_rows(classes, rows)->Ok_0.subrange(classes.len() as int, fold_rows(classes, rows)->Ok_0.len() as int),
                ))[i],
            ) == Some(RecordClass::Lifecycle),
{
    let t = fold_rows(classes, rows)->Ok_0;
    lemma_fold_law(classes, rows);
    lemma_fold_extends(classes, rows);
    let c = classes.len() as int;
    let fv = t.subrange(c, t.len() as int);
    assert(topics_distinct(fv)) by {
        assert forall|i: int, j: int| 0 <= i < j < fv.len() implies #[trigger] fv[i].0 != #[trigger] fv[j].0 by {
            assert(fv[i] == t[i + c] && fv[j] == t[j + c]);
        }
    }
    lemma_lifecycle_topics_from(fv);
    let lt = lifecycle_topics(fv);
    let s2 = slots + lt;
    // A freshly bound topic is a fresh row registered `LIFECYCLE`.
    assert forall|j: int| 0 <= j < lt.len() implies lookup(classes, #[trigger] lt[j]) is None && lookup(t, lt[j])
        == Some(RecordClass::Lifecycle) by {
        let i = choose|i: int| 0 <= i < fv.len() && #[trigger] fv[i] == (#[trigger] lt[j], RecordClass::Lifecycle);
        assert(fv[i] == t[i + c]);
        lemma_lookup_distinct(t, i + c);
    }
    assert forall|i: int| 0 <= i < s2.len() implies lookup(t, #[trigger] s2[i]) == Some(RecordClass::Lifecycle) by {
        if i < slots.len() {
            assert(s2[i] == slots[i]);
            assert(lookup(classes, slots[i]) == Some(RecordClass::Lifecycle));
        } else {
            assert(s2[i] == lt[i - slots.len()]);
        }
    }
    assert(s2.no_duplicates()) by {
        assert forall|a: int, b: int| 0 <= a < s2.len() && 0 <= b < s2.len() && a != b implies s2[a] != s2[b] by {
            if a < slots.len() && b < slots.len() {
                assert(s2[a] == slots[a] && s2[b] == slots[b]);
            } else if a >= slots.len() && b >= slots.len() {
                assert(s2[a] == lt[a - slots.len()] && s2[b] == lt[b - slots.len()]);
            } else if a < slots.len() {
                assert(s2[a] == slots[a] && s2[b] == lt[b - slots.len()]);
                assert(lookup(classes, slots[a]) is Some);
            } else {
                assert(s2[b] == slots[b] && s2[a] == lt[a - slots.len()]);
                assert(lookup(classes, slots[b]) is Some);
            }
        }
    }
}

/// One kind of registration table: each topic and its value, in the order
/// they arrived.
#[derive(Debug)]
pub struct Table<M> {
    rows: Vec<(Topic, M)>,
}

/// Find the value the first row naming `topic` holds.
fn find<M: Copy>(rows: &Vec<(Topic, M)>, topic: &Topic) -> (r: Option<M>)
    ensures
        r == lookup(rows_view(rows@), topic@),
{
    let mut i: usize = 0;
    proof {
        assert(rows_view(rows@).subrange(0, rows@.len() as int) =~= rows_view(rows@));
    }
    while i < rows.len()
        invariant
            0 <= i <= rows@.len(),
            lookup(rows_view(rows@), topic@) == lookup(
                rows_view(rows@).subrange(i as int, rows@.len() as int),
                topic@,
            ),
        decreases rows.len() - i,
    {
        let ghost rest = rows_view(rows@).subrange(i as int, rows@.len() as int);
        if rows[i].0 == *topic {
            return Some(rows[i].1);
        }
        proof {
            assert(rest.drop_first() =~= rows_view(rows@).subrange(i + 1, rows@.len() as int));
        }
        i = i + 1;
    }
    None
}

/// Find the value the first row whose topic is spelled by the bytes
/// `topic` holds.
fn find_bytes<M: Copy>(rows: &Vec<(Topic, M)>, topic: &[u8]) -> (r: Option<M>)
    ensures
        r == lookup_bytes(rows_view(rows@), topic@),
{
    let mut i: usize = 0;
    proof {
        assert(rows_view(rows@).subrange(0, rows@.len() as int) =~= rows_view(rows@));
    }
    while i < rows.len()
        invariant
            0 <= i <= rows@.len(),
            lookup_bytes(rows_view(rows@), topic@) == lookup_bytes(
                rows_view(rows@).subrange(i as int, rows@.len() as int),
                topic@,
            ),
        decreases rows.len() - i,
    {
        let ghost rest = rows_view(rows@).subrange(i as int, rows@.len() as int);
        if bytes_eq(rows[i].0.as_str().as_bytes(), topic) {
            return Some(rows[i].1);
        }
        proof {
            assert(rest.drop_first() =~= rows_view(rows@).subrange(i + 1, rows@.len() as int));
        }
        i = i + 1;
    }
    None
}

/// The rows of a call new to `table`, or the conflict that refuses it: a
/// merge's first pass, which applies nothing.
fn fresh<M: Member>(table: &Vec<(Topic, M)>, rows: &Vec<(Topic, M)>) -> (r: Result<Vec<(Topic, M)>, Refusal>)
    ensures
        r matches Ok(f) ==> f@.len() <= rows@.len(),
        match fold_rows(rows_view(table@), rows_view(rows@)) {
            Ok(t) => r matches Ok(f) && t == rows_view(table@) + rows_view(f@),
            Err((k, h, v)) => r matches Err(Refusal::Conflict { topic, held, offered }) && topic@ == k
                && held@ == h.spec_name() && offered@ == v.spec_name(),
        },
{
    let mut fresh: Vec<(Topic, M)> = Vec::new();
    let mut i: usize = 0;
    proof {
        assert(rows_view(rows@).subrange(0, rows@.len() as int) =~= rows_view(rows@));
        assert(rows_view(table@) + rows_view(fresh@) =~= rows_view(table@));
    }
    while i < rows.len()
        invariant
            0 <= i <= rows@.len(),
            fold_rows(rows_view(table@), rows_view(rows@)) == fold_rows(
                rows_view(table@) + rows_view(fresh@),
                rows_view(rows@).subrange(i as int, rows@.len() as int),
            ),
            fresh@.len() <= i,
        decreases rows.len() - i,
    {
        let ghost combined = rows_view(table@) + rows_view(fresh@);
        let ghost rest = rows_view(rows@).subrange(i as int, rows@.len() as int);
        let topic = &rows[i].0;
        let offered = rows[i].1;
        let held = match find(table, topic) {
            Some(h) => Some(h),
            None => find(&fresh, topic),
        };
        proof {
            lemma_lookup_concat(rows_view(table@), rows_view(fresh@), topic@);
            assert(rest[0] == (topic@, offered));
            assert(rest.drop_first() =~= rows_view(rows@).subrange(i + 1, rows@.len() as int));
        }
        match held {
            Some(h) => {
                if h.number() != offered.number() {
                    return Err(Refusal::Conflict {
                        topic: topic.clone(),
                        held: h.name(),
                        offered: offered.name(),
                    });
                }
                proof {
                    M::lemma_number_names(h, offered);
                }
            },
            None => {
                fresh.push((topic.clone(), offered));
                proof {
                    assert(rows_view(table@) + rows_view(fresh@) =~= combined.push((topic@, offered)));
                }
            },
        }
        i = i + 1;
    }
    proof {
        assert(rows_view(rows@).subrange(rows@.len() as int, rows@.len() as int) =~= Seq::<
            (Seq<char>, M),
        >::empty());
    }
    Ok(fresh)
}

/// Append `more` to `rows`.
fn append_rows<M: Copy>(rows: &mut Vec<(Topic, M)>, more: Vec<(Topic, M)>)
    ensures
        rows_view(final(rows)@) == rows_view(old(rows)@) + rows_view(more@),
        final(rows)@.len() == old(rows)@.len() + more@.len(),
{
    let ghost added = more@;
    let mut more = more;
    rows.append(&mut more);
    proof {
        assert(rows_view(rows@) =~= rows_view(old(rows)@) + rows_view(added));
    }
}

impl<M: Member> Table<M> {
    /// Each topic and its value, in the order they arrived.
    pub closed spec fn entries(&self) -> Seq<(Seq<char>, M)> {
        rows_view(self.rows@)
    }

    /// An empty table.
    pub fn new() -> (t: Self)
        ensures
            t.entries() == Seq::<(Seq<char>, M)>::empty(),
    {
        let t = Table { rows: Vec::new() };
        proof {
            assert(t.entries() =~= Seq::<(Seq<char>, M)>::empty());
        }
        t
    }

    /// How many topics the table holds.
    pub fn len(&self) -> (n: usize)
        ensures
            n == self.entries().len(),
    {
        self.rows.len()
    }

    /// Whether the table holds nothing.
    pub fn is_empty(&self) -> (b: bool)
        ensures
            b == (self.entries().len() == 0),
    {
        self.rows.len() == 0
    }

    /// The value `topic` is registered with, if any.
    pub fn get(&self, topic: &str) -> (v: Option<M>)
        ensures
            v == lookup_bytes(self.entries(), topic.spec_bytes()),
    {
        find_bytes(&self.rows, topic.as_bytes())
    }

    /// Merge `rows`: every row new to the table is added, every row
    /// repeating it is passed over, and the first row disagreeing with the
    /// table, or with an earlier row of the same call, refuses the call with
    /// nothing added. Returns how many rows were added.
    pub fn merge(&mut self, rows: Vec<(Topic, M)>) -> (r: Result<usize, Refusal>)
        ensures
            Registry::table_merged(old(self).entries(), rows_view(rows@), final(self).entries(), r),
            topics_distinct(old(self).entries()) ==> topics_distinct(final(self).entries()),
    {
        proof {
            lemma_fold_law(old(self).entries(), rows_view(rows@));
        }
        let fresh = fresh(&self.rows, &rows)?;
        let added = fresh.len();
        append_rows(&mut self.rows, fresh);
        Ok(added)
    }
}

/// The topics of `rows` registered `LIFECYCLE`, in order.
pub open spec fn lifecycle_topics(rows: Seq<(Seq<char>, RecordClass)>) -> Seq<Seq<char>>
    decreases rows.len(),
{
    if rows.len() == 0 {
        Seq::empty()
    } else {
        lifecycle_topics(rows.drop_last()) + if rows.last().1 == RecordClass::Lifecycle {
            seq![rows.last().0]
        } else {
            Seq::<Seq<char>>::empty()
        }
    }
}

/// Replies added one at a time: a topic already held adds nothing.
pub open spec fn add_replies(set: Seq<Seq<char>>, topics: Seq<Seq<char>>) -> Seq<Seq<char>>
    decreases topics.len(),
{
    if topics.len() == 0 {
        set
    } else if set.contains(topics[0]) {
        add_replies(set, topics.drop_first())
    } else {
        add_replies(set.push(topics[0]), topics.drop_first())
    }
}

/// The tables the two registrars share.
///
/// `routes` carries inbound topics only, while `classes` and `caps` carry
/// every topic that crosses in either direction, so an outbound-only topic
/// has a class and a capability and no route, and that is complete.
/// `replies` is the topics a record may be addressed to one connection on.
///
/// A `LIFECYCLE` topic is bound to a slot in the retained set as its class
/// arrives, in arrival order, and slots are never given back.
#[derive(Debug)]
pub struct Registry {
    classes: Table<RecordClass>,
    routes: Table<Target>,
    caps: Table<Capability>,
    replies: Vec<Topic>,
    /// The retained-set slot of every `LIFECYCLE` topic in `classes`: the
    /// `i`th bound is slot `i`.
    slots: Vec<(Topic, u32)>,
}

impl Registry {
    /// Every registered topic's drop policy.
    pub closed spec fn class_entries(&self) -> Seq<(Seq<char>, RecordClass)> {
        self.classes.entries()
    }

    /// Every registered inbound topic's destination state.
    pub closed spec fn route_entries(&self) -> Seq<(Seq<char>, Target)> {
        self.routes.entries()
    }

    /// Every registered topic's required capability.
    pub closed spec fn cap_entries(&self) -> Seq<(Seq<char>, Capability)> {
        self.caps.entries()
    }

    /// Every registered typed reply.
    pub closed spec fn reply_topics(&self) -> Seq<Seq<char>> {
        self.replies@.map_values(|t: Topic| t@)
    }

    /// The `LIFECYCLE` topics bound to a slot, the `i`th to slot `i`.
    pub closed spec fn slot_topics(&self) -> Seq<Seq<char>> {
        self.slots@.map_values(|r: (Topic, u32)| r.0@)
    }

    /// The slot each bound topic holds.
    pub closed spec fn slot_entries(&self) -> Seq<(Seq<char>, u32)> {
        rows_view(self.slots@)
    }

    /// The registry's invariant: slots numbered by their order of binding;
    /// no topic twice in any table, in the replies or among the bound
    /// topics; and every bound topic registered `LIFECYCLE`.
    pub closed spec fn wf(&self) -> bool {
        &&& self.slots@.len() <= u32::MAX
        &&& forall|i: int| 0 <= i < self.slots@.len() ==> #[trigger] self.slots@[i].1 == i
        &&& topics_distinct(self.class_entries())
        &&& topics_distinct(self.route_entries())
        &&& topics_distinct(self.cap_entries())
        &&& self.reply_topics().no_duplicates()
        &&& self.slot_topics().no_duplicates()
        &&& forall|i: int|
            0 <= i < self.slot_topics().len() ==> lookup(self.class_entries(), #[trigger] self.slot_topics()[i])
                == Some(RecordClass::Lifecycle)
    }

    /// Law: a sound registry holds no topic twice in any table, in its
    /// replies or among its bound topics, and binds a slot to `LIFECYCLE`
    /// topics alone.
    pub proof fn lemma_no_topic_twice(&self)
        requires
            self.wf(),
        ensures
            topics_distinct(self.class_entries()),
            topics_distinct(self.route_entries()),
            topics_distinct(self.cap_entries()),
            self.reply_topics().no_duplicates(),
            self.slot_topics().no_duplicates(),
            forall|i: int|
                0 <= i < self.slot_topics().len() ==> lookup(self.class_entries(), #[trigger] self.slot_topics()[i])
                    == Some(RecordClass::Lifecycle),
    {
    }

    /// Law: every slot number is its place in the order of binding, so no
    /// two topics share a slot.
    pub proof fn lemma_slots_distinct(&self)
        requires
            self.wf(),
        ensures
            forall|i: int|
                0 <= i < self.slot_entries().len() ==> #[trigger] self.slot_entries()[i].1 == i,
            self.slot_entries().len() == self.slot_topics().len(),
    {
        assert forall|i: int|
            0 <= i < self.slot_entries().len() implies #[trigger] self.slot_entries()[i].1 == i by {
            assert(self.slots@[i].1 == i);
        }
    }

    /// What merging `rows` into the class table under the slot cap `cap`
    /// leaves, and answers: the rows the table did not hold added and each
    /// fresh `LIFECYCLE` topic bound to the next slot; or, on a conflict or
    /// past the cap, nothing changed and the refusal.
    pub open spec fn classes_merged(
        self,
        rows: Seq<(Seq<char>, RecordClass)>,
        cap: u32,
        next: Registry,
        r: Result<usize, Refusal>,
    ) -> bool {
        &&& next.wf()
        &&& next.route_entries() == self.route_entries()
        &&& next.cap_entries() == self.cap_entries()
        &&& next.reply_topics() == self.reply_topics()
        &&& match fold_rows(self.class_entries(), rows) {
                Err((k, h, v)) => {
                    &&& next.class_entries() == self.class_entries()
                    &&& next.slot_topics() == self.slot_topics()
                    &&& r matches Err(Refusal::Conflict { topic, held, offered }) && topic@ == k
                        && held@ == h.spec_name() && offered@ == v.spec_name()
                },
                Ok(t) => {
                    let fresh = t.subrange(self.class_entries().len() as int, t.len() as int);
                    let offered = lifecycle_topics(fresh).len();
                    if self.slot_topics().len() + offered > cap {
                        &&& next.class_entries() == self.class_entries()
                        &&& next.slot_topics() == self.slot_topics()
                        &&& r == Err::<usize, Refusal>(
                            Refusal::OverCap {
                                bound: self.slot_topics().len() as u32,
                                offered: offered as u32,
                                cap,
                            },
                        )
                    } else {
                        &&& r == Ok::<usize, Refusal>(fresh.len() as usize)
                        &&& next.class_entries() == t
                        &&& next.slot_topics() == self.slot_topics() + lifecycle_topics(
                            fresh,
                        )
                        &&& next.slot_topics().len() <= cap
                    }
                },
            }
    }

    /// A table's merge of `rows` over `table`: the fresh rows added and
    /// their count, or on a conflict nothing changed and the refusal naming
    /// the topic and both values.
    pub open spec fn table_merged<M: Member>(
        table: Seq<(Seq<char>, M)>,
        rows: Seq<(Seq<char>, M)>,
        after: Seq<(Seq<char>, M)>,
        r: Result<usize, Refusal>,
    ) -> bool {
        match fold_rows(table, rows) {
            Ok(t) => r == Ok::<usize, Refusal>((t.len() - table.len()) as usize) && after == t,
            Err((k, h, v)) => after == table && (r matches Err(Refusal::Conflict { topic, held, offered })
                && topic@ == k && held@ == h.spec_name() && offered@ == v.spec_name()),
        }
    }

    /// What merging `rows` into the route table leaves, and answers.
    pub open spec fn routes_merged(
        self,
        rows: Seq<(Seq<char>, Target)>,
        next: Registry,
        r: Result<usize, Refusal>,
    ) -> bool {
        &&& next.wf()
        &&& next.class_entries() == self.class_entries()
        &&& next.cap_entries() == self.cap_entries()
        &&& next.reply_topics() == self.reply_topics()
        &&& next.slot_topics() == self.slot_topics()
        &&& Registry::table_merged(self.route_entries(), rows, next.route_entries(), r)
    }

    /// What merging `rows` into the capability table leaves, and answers.
    pub open spec fn caps_merged(
        self,
        rows: Seq<(Seq<char>, Capability)>,
        next: Registry,
        r: Result<usize, Refusal>,
    ) -> bool {
        &&& next.wf()
        &&& next.class_entries() == self.class_entries()
        &&& next.route_entries() == self.route_entries()
        &&& next.reply_topics() == self.reply_topics()
        &&& next.slot_topics() == self.slot_topics()
        &&& Registry::table_merged(self.cap_entries(), rows, next.cap_entries(), r)
    }

    /// What adding `topics` to the addressable set leaves, and answers: each
    /// topic not held added once, and how many were.
    pub open spec fn replies_added(self, topics: Seq<Seq<char>>, next: Registry, n: usize) -> bool {
        &&& next.wf()
        &&& next.class_entries() == self.class_entries()
        &&& next.route_entries() == self.route_entries()
        &&& next.cap_entries() == self.cap_entries()
        &&& next.slot_topics() == self.slot_topics()
        &&& next.reply_topics() == add_replies(self.reply_topics(), topics)
        &&& n == next.reply_topics().len() - self.reply_topics().len()
    }

    /// A registry with nothing registered.
    pub fn new() -> (r: Self)
        ensures
            r.wf(),
            r.class_entries() == Seq::<(Seq<char>, RecordClass)>::empty(),
            r.route_entries() == Seq::<(Seq<char>, Target)>::empty(),
            r.cap_entries() == Seq::<(Seq<char>, Capability)>::empty(),
            r.reply_topics() == Seq::<Seq<char>>::empty(),
            r.slot_topics() == Seq::<Seq<char>>::empty(),
    {
        let r = Registry {
            classes: Table::new(),
            routes: Table::new(),
            caps: Table::new(),
            replies: Vec::new(),
            slots: Vec::new(),
        };
        proof {
            assert(r.reply_topics() =~= Seq::<Seq<char>>::empty());
            assert(r.slot_topics() =~= Seq::<Seq<char>>::empty());
        }
        r
    }

    /// Merge a table of drop policies, binding each fresh `LIFECYCLE` topic
    /// to the next slot under `cap`.
    ///
    /// A call whose fresh `LIFECYCLE` topics would take the bound count past
    /// `cap` is refused whole, the rows of other classes beside them
    /// included, so a registrar's table is applied or it is not. A topic
    /// already bound binds nothing again.
    pub fn register_classes(&mut self, rows: Vec<(Topic, RecordClass)>, cap: u32) -> (r: Result<
        usize,
        Refusal,
    >)
        requires
            old(self).wf(),
            old(self).slot_topics().len() + rows@.len() <= u32::MAX,
        ensures
            old(self).classes_merged(rows_view(rows@), cap, *final(self), r),
    {
        let fresh = fresh(&self.classes.rows, &rows)?;
        let ghost fv = rows_view(fresh@);
        proof {
            let t = rows_view(self.classes.rows@) + fv;
            assert(t.subrange(self.classes.rows@.len() as int, t.len() as int) =~= fv);
        }
        let bound = self.slots.len() as u32;
        let mut offered: usize = 0;
        let mut i: usize = 0;
        while i < fresh.len()
            invariant
                0 <= i <= fresh@.len(),
                fv == rows_view(fresh@),
                offered == lifecycle_topics(fv.subrange(0, i as int)).len(),
                offered <= i,
                fresh@.len() <= rows@.len(),
                self.slots@.len() + rows@.len() <= u32::MAX,
            decreases fresh.len() - i,
        {
            proof {
                assert(fv.subrange(0, i + 1).drop_last() =~= fv.subrange(0, i as int));
            }
            match fresh[i].1 {
                RecordClass::Lifecycle => {
                    offered = offered + 1;
                },
                _ => {},
            }
            i = i + 1;
        }
        proof {
            assert(fv.subrange(0, fresh@.len() as int) =~= fv);
        }
        let offered = offered as u32;
        proof {
            assert(bound == self.slots@.len());
            assert(offered == lifecycle_topics(fv).len());
            assert(bound + offered <= u32::MAX);
        }
        if bound.saturating_add(offered) > cap {
            return Err(Refusal::OverCap { bound, offered, cap });
        }
        let ghost before = self.slots@;
        let mut i: usize = 0;
        while i < fresh.len()
            invariant
                0 <= i <= fresh@.len(),
                fv == rows_view(fresh@),
                self.slots@.len() == before.len() + lifecycle_topics(fv.subrange(0, i as int)).len(),
                self.slots@.map_values(|r: (Topic, u32)| r.0@) == before.map_values(
                    |r: (Topic, u32)| r.0@,
                ) + lifecycle_topics(fv.subrange(0, i as int)),
                forall|j: int| 0 <= j < self.slots@.len() ==> #[trigger] self.slots@[j].1 == j,
                before.len() + lifecycle_topics(fv).len() <= cap,
                lifecycle_topics(fv.subrange(0, i as int)).len() <= lifecycle_topics(fv).len(),
                self.classes == old(self).classes,
                self.routes == old(self).routes,
                self.caps == old(self).caps,
                self.replies == old(self).replies,
            decreases fresh.len() - i,
        {
            proof {
                assert(fv.subrange(0, i + 1).drop_last() =~= fv.subrange(0, i as int));
                lemma_lifecycle_topics_prefix(fv, i as int + 1);
            }
            match fresh[i].1 {
                RecordClass::Lifecycle => {
                    let slot = self.slots.len() as u32;
                    let ghost old_slots = self.slots@;
                    self.slots.push((fresh[i].0.clone(), slot));
                    proof {
                        assert(self.slots@.map_values(|r: (Topic, u32)| r.0@) =~= old_slots.map_values(
                            |r: (Topic, u32)| r.0@,
                        ).push(fresh@[i as int].0@));
                    }
                },
                _ => {},
            }
            i = i + 1;
        }
        proof {
            assert(fv.subrange(0, fresh@.len() as int) =~= fv);
        }
        let added = fresh.len();
        append_rows(&mut self.classes.rows, fresh);
        proof {
            lemma_classes_merge_sound(old(self).class_entries(), old(self).slot_topics(), rows_view(rows@));
            let t = fold_rows(old(self).class_entries(), rows_view(rows@))->Ok_0;
            assert(t.subrange(old(self).class_entries().len() as int, t.len() as int) == fv);
        }
        Ok(added)
    }

    /// Merge a table of destination states. See [`Table::merge`].
    pub fn register_routes(&mut self, rows: Vec<(Topic, Target)>) -> (r: Result<usize, Refusal>)
        requires
            old(self).wf(),
        ensures
            old(self).routes_merged(rows_view(rows@), *final(self), r),
    {
        self.routes.merge(rows)
    }

    /// Merge a table of required capabilities. See [`Table::merge`].
    pub fn register_caps(&mut self, rows: Vec<(Topic, Capability)>) -> (r: Result<usize, Refusal>)
        requires
            old(self).wf(),
        ensures
            old(self).caps_merged(rows_view(rows@), *final(self), r),
    {
        self.caps.merge(rows)
    }

    /// Add topics to the addressable set, returning how many were new. A set
    /// has no value to disagree on, so this cannot be refused.
    pub fn register_replies(&mut self, topics: Vec<Topic>) -> (n: usize)
        requires
            old(self).wf(),
        ensures
            old(self).replies_added(topics@.map_values(|t: Topic| t@), *final(self), n),
    {
        let ghost all = topics@.map_values(|t: Topic| t@);
        let mut added: usize = 0;
        let mut i: usize = 0;
        proof {
            assert(all.subrange(0, topics@.len() as int) =~= all);
        }
        while i < topics.len()
            invariant
                0 <= i <= topics@.len(),
                all == topics@.map_values(|t: Topic| t@),
                add_replies(old(self).reply_topics(), all) == add_replies(
                    self.replies@.map_values(|t: Topic| t@),
                    all.subrange(i as int, all.len() as int),
                ),
                self.replies@.len() == old(self).replies@.len() + added,
                self.classes == old(self).classes,
                self.routes == old(self).routes,
                self.caps == old(self).caps,
                self.slots == old(self).slots,
            decreases topics.len() - i,
        {
            let ghost set = self.replies@.map_values(|t: Topic| t@);
            let ghost rest = all.subrange(i as int, all.len() as int);
            proof {
                assert(rest.drop_first() =~= all.subrange(i + 1, all.len() as int));
                assert(rest[0] == topics@[i as int]@);
            }
            let mut held = false;
            let mut j: usize = 0;
            while j < self.replies.len()
                invariant
                    0 <= j <= self.replies@.len(),
                    set == self.replies@.map_values(|t: Topic| t@),
                    held == exists|k: int| 0 <= k < j && #[trigger] set[k] == topics@[i as int]@,
                    0 <= i < topics@.len(),
                decreases self.replies.len() - j,
            {
                proof {
                    assert(set[j as int] == self.replies@[j as int]@);
                }
                if self.replies[j] == topics[i] {
                    held = true;
                }
                j = j + 1;
            }
            proof {
                if set.contains(rest[0]) {
                    let k = choose|k: int| 0 <= k < set.len() && set[k] == rest[0];
                    assert(set[k] == topics@[i as int]@);
                }
                if held {
                    let k = choose|k: int| 0 <= k < j && #[trigger] set[k] == topics@[i as int]@;
                    assert(set.contains(rest[0]));
                }
            }
            if !held {
                self.replies.push(topics[i].clone());
                assert(added + 1 <= self.replies.len());
                added = added + 1;
                proof {
                    assert(self.replies@.map_values(|t: Topic| t@) =~= set.push(rest[0]));
                }
            }
            i = i + 1;
        }
        proof {
            assert(all.subrange(all.len() as int, all.len() as int) =~= Seq::<Seq<char>>::empty());
            lemma_add_replies_distinct(old(self).reply_topics(), all);
        }
        added
    }

    /// The capability a connection needs to receive a record on `topic`,
    /// the ring the record takes, and the retained-set slot a `LIFECYCLE`
    /// record replaces, or `None` when the topic lacks a class or a
    /// capability. The acknowledgement is complete by name: it answers a
    /// command, so `command` covers it, and it is `DURABLE`.
    pub fn required(&self, topic: &[u8]) -> (r: Option<(Capability, Class, Option<u32>)>)
        ensures
            r == self.requirement(topic@),
    {
        if bytes_eq(topic, topic::COMMAND_ACK.as_bytes()) {
            return Some((Capability::Command, Class::Durable, None));
        }
        let class = match find_bytes(&self.classes.rows, topic) {
            Some(class) => class,
            None => {
                return None;
            },
        };
        let slot = find_bytes(&self.slots, topic);
        match find_bytes(&self.caps.rows, topic) {
            Some(cap) => Some((cap, class.outbound(), slot)),
            None => None,
        }
    }

    /// What [`Registry::required`] answers for the bytes `topic`.
    pub open spec fn requirement(&self, topic: Seq<u8>) -> Option<(Capability, Class, Option<u32>)> {
        if topic == encode_utf8(topic::COMMAND_ACK@) {
            Some((Capability::Command, Class::Durable, None))
        } else {
            match (
                lookup_bytes(self.class_entries(), topic),
                lookup_bytes(self.cap_entries(), topic),
            ) {
                (Some(c), Some(k)) => Some((k, outbound_class(c), lookup_bytes(self.slot_entries(), topic))),
                _ => None,
            }
        }
    }

    /// Whether `topic` has both a class and a capability, which is what a
    /// record needs before the broker opens one on it. Both fail closed: a
    /// missing capability that failed open would disclose the record to
    /// every connection.
    pub fn is_complete(&self, topic: &[u8]) -> (b: bool)
        ensures
            b == self.requirement(topic@) is Some,
    {
        self.required(topic).is_some()
    }

    /// Whether the bytes `topic` name the acknowledgement or a registered
    /// typed reply.
    pub open spec fn addresses(&self, topic: Seq<u8>) -> bool {
        topic == encode_utf8(topic::COMMAND_ACK@) || exists|i: int|
            0 <= i < self.reply_topics().len() && encode_utf8(#[trigger] self.reply_topics()[i]) == topic
    }

    /// Whether a record on `topic` may be addressed to one connection: the
    /// acknowledgement and a registered typed reply, and nothing else.
    pub fn is_addressable(&self, topic: &[u8]) -> (b: bool)
        ensures
            b == self.addresses(topic@),
    {
        if bytes_eq(topic, topic::COMMAND_ACK.as_bytes()) {
            return true;
        }
        let mut i: usize = 0;
        while i < self.replies.len()
            invariant
                0 <= i <= self.replies@.len(),
                forall|j: int| 0 <= j < i ==> encode_utf8(#[trigger] self.reply_topics()[j]) != topic@,
            decreases self.replies.len() - i,
        {
            if bytes_eq(self.replies[i].as_str().as_bytes(), topic) {
                proof {
                    assert(self.reply_topics()[i as int] == self.replies@[i as int]@);
                }
                return true;
            }
            proof {
                assert(self.reply_topics()[i as int] == self.replies@[i as int]@);
            }
            i = i + 1;
        }
        false
    }

    /// Every registered topic's drop policy, inbound and outbound.
    pub fn classes(&self) -> (t: &Table<RecordClass>)
        ensures
            t.entries() == self.class_entries(),
    {
        &self.classes
    }

    /// Every registered inbound topic's destination state.
    pub fn routes(&self) -> (t: &Table<Target>)
        ensures
            t.entries() == self.route_entries(),
    {
        &self.routes
    }

    /// Every registered topic's required capability, inbound and outbound.
    pub fn caps(&self) -> (t: &Table<Capability>)
        ensures
            t.entries() == self.cap_entries(),
    {
        &self.caps
    }

    /// Every `LIFECYCLE` topic bound so far and the retained-set slot it
    /// holds, in the order they were bound.
    pub fn slots(&self) -> (s: &Vec<(Topic, u32)>)
        ensures
            rows_view(s@) == self.slot_entries(),
    {
        &self.slots
    }

    /// Every registered typed reply. The acknowledgement is not among them:
    /// it is addressable by name.
    pub fn replies(&self) -> (t: &Vec<Topic>)
        ensures
            t@.map_values(|x: Topic| x@) == self.reply_topics(),
    {
        &self.replies
    }
}

/// A table's merge, whole or not at all. Over a table with no topic twice,
/// a merge of `rows` is refused, naming the conflict, exactly when some row
/// disagrees with the table or with an earlier row naming the same topic,
/// and then leaves the table as it was. Otherwise it answers the number of
/// topics the rows name that the table did not hold, and the table after
/// is the table before with one row for each of those topics at its end,
/// holding the value the first such row gave, and no topic twice.
pub proof fn law_a_table_merges_whole_or_not_at_all<M: Member>(
    table: Seq<(Seq<char>, M)>,
    rows: Seq<(Seq<char>, M)>,
    after: Seq<(Seq<char>, M)>,
    r: Result<usize, Refusal>,
)
    requires
        topics_distinct(table),
        rows.len() <= usize::MAX,
        Registry::table_merged(table, rows, after, r),
    ensures
        (r matches Err(Refusal::Conflict { .. })) == !rows_agree(table, rows),
        r is Err ==> after == table,
        r matches Ok(n) ==> {
            &&& n == fresh_topics(table, rows).len()
            &&& after.subrange(0, table.len() as int) == table
            &&& topics_distinct(after)
            &&& forall|x: Seq<char>| #[trigger] lookup(after, x) == match lookup(table, x) {
                Some(v) => Some(v),
                None => lookup(rows, x),
            }
            &&& forall|i: int| table.len() <= i < after.len() ==> fresh_topics(table, rows).contains(#[trigger] after[i].0)
        },
{
    law_a_merge_adds_each_fresh_topic_once(table, rows);
    lemma_fold_grows_at_most(table, rows);
}

/// Registering classes, whole or not at all. Over a sound registry, a
/// registration of `rows` under the slot cap `cap` is refused, naming the
/// conflict, exactly when some row disagrees with the class table or with
/// an earlier row naming the same topic; refused for the cap only when the
/// rows agree; and refused either way, it changes neither the table nor the
/// slots. Otherwise it answers the number of topics the rows name that the
/// table did not hold; the table after is the table before with one row for
/// each of those topics, holding the value the first such row gave; topics
/// bound before keep their slots; every one of those topics registered
/// `LIFECYCLE` is bound, each topic to the slot its place gives, all below
/// `cap`; and only `LIFECYCLE` topics are bound, each once.
pub proof fn law_classes_register_whole_or_not_at_all(
    reg: Registry,
    rows: Seq<(Seq<char>, RecordClass)>,
    cap: u32,
    next: Registry,
    r: Result<usize, Refusal>,
)
    requires
        reg.wf(),
        rows.len() <= usize::MAX,
        reg.classes_merged(rows, cap, next, r),
    ensures
        (r matches Err(Refusal::Conflict { .. })) == !rows_agree(reg.class_entries(), rows),
        r matches Err(Refusal::OverCap { .. }) ==> rows_agree(reg.class_entries(), rows),
        r is Err ==> next.class_entries() == reg.class_entries() && next.slot_topics() == reg.slot_topics(),
        r matches Ok(n) ==> {
            &&& n == fresh_topics(reg.class_entries(), rows).len()
            &&& next.class_entries().subrange(0, reg.class_entries().len() as int) == reg.class_entries()
            &&& forall|x: Seq<char>| #[trigger] lookup(next.class_entries(), x) == match lookup(reg.class_entries(), x) {
                Some(v) => Some(v),
                None => lookup(rows, x),
            }
            &&& next.slot_topics().subrange(0, reg.slot_topics().len() as int) == reg.slot_topics()
            &&& next.slot_topics().len() <= cap
            &&& forall|x: Seq<char>|
                fresh_topics(reg.class_entries(), rows).contains(x) && lookup(rows, x) == Some(RecordClass::Lifecycle)
                    ==> #[trigger] next.slot_topics().contains(x)
        },
        forall|i: int|
            0 <= i < next.slot_entries().len() ==> #[trigger] next.slot_entries()[i].1 == i && i < next.slot_topics().len(),
        forall|i: int|
            0 <= i < next.slot_topics().len() ==> lookup(next.class_entries(), #[trigger] next.slot_topics()[i])
                == Some(RecordClass::Lifecycle),
        next.slot_topics().no_duplicates(),
{
    let c = reg.class_entries();
    reg.lemma_no_topic_twice();
    next.lemma_no_topic_twice();
    next.lemma_slots_distinct();
    law_a_merge_adds_each_fresh_topic_once(c, rows);
    lemma_fold_grows_at_most(c, rows);
    if let Ok(t) = fold_rows(c, rows) {
        let fv = t.subrange(c.len() as int, t.len() as int);
        if r is Ok {
            assert(next.slot_topics().subrange(0, reg.slot_topics().len() as int) =~= reg.slot_topics());
            lemma_lifecycle_topics_from(fv);
            assert forall|x: Seq<char>|
                fresh_topics(c, rows).contains(x) && lookup(rows, x) == Some(RecordClass::Lifecycle) implies #[trigger] next.slot_topics().contains(x) by {
                lemma_lookup_found(t, x);
                lemma_lookup_found(c, x);
                let p = choose|i: int| 0 <= i < t.len() && #[trigger] t[i] == (x, RecordClass::Lifecycle);
                if p < c.len() {
                    assert(t.subrange(0, c.len() as int)[p] == c[p]);
                    assert(c[p].0 == x);
                }
                assert(fv[p - c.len()] == t[p]);
                assert(fv[p - c.len()].1 == RecordClass::Lifecycle);
                let lt = lifecycle_topics(fv);
                assert(lt.contains(fv[p - c.len()].0));
                let j = choose|j: int| 0 <= j < lt.len() && lt[j] == x;
                assert(next.slot_topics()[reg.slot_topics().len() + j] == x);
            }
        }
    }
    assert forall|i: int| 0 <= i < next.slot_entries().len() implies #[trigger] next.slot_entries()[i].1 == i
        && i < next.slot_topics().len() by {}
}

impl Default for Registry {
    fn default() -> (r: Self)
        ensures
            r.wf(),
            r.class_entries() == Seq::<(Seq<char>, RecordClass)>::empty(),
            r.route_entries() == Seq::<(Seq<char>, Target)>::empty(),
            r.cap_entries() == Seq::<(Seq<char>, Capability)>::empty(),
            r.reply_topics() == Seq::<Seq<char>>::empty(),
            r.slot_topics() == Seq::<Seq<char>>::empty(),
    {
        Registry::new()
    }
}

/// A prefix of a table holds no more `LIFECYCLE` topics than the whole.
proof fn lemma_lifecycle_topics_prefix(rows: Seq<(Seq<char>, RecordClass)>, n: int)
    requires
        0 <= n <= rows.len(),
    ensures
        lifecycle_topics(rows.subrange(0, n)).len() <= lifecycle_topics(rows).len(),
    decreases rows.len(),
{
    if n < rows.len() {
        assert(rows.drop_last().subrange(0, n) =~= rows.subrange(0, n));
        lemma_lifecycle_topics_prefix(rows.drop_last(), n);
    } else {
        assert(rows.subrange(0, n) =~= rows);
    }
}

} // verus!
