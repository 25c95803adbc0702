//! The event model shared by the record and replay pipelines.

pub mod codec;
pub mod layout;

use vstd::prelude::*;

verus! {

/// The kind of cache operation an event stands for.
#[derive(Debug, Clone, Copy, PartialEq, Eq, Structural, Hash)]
pub enum CommandType {
    Get,
    /// A store of a value under a key (`set` on the wire).
    Store,
    Delete,
    Noop,
}

impl CommandType {
    /// The position of the variant in the declaration, which is how the
    /// profile encoding tags it.
    pub open spec fn spec_index(self) -> u32 {
        match self {
            CommandType::Get => 0,
            CommandType::Store => 1,
            CommandType::Delete => 2,
            CommandType::Noop => 3,
        }
    }

    /// The variant that the profile encoding tags with `index`, if any.
    pub open spec fn spec_from_index(index: u32) -> Option<CommandType> {
        if index == 0 {
            Some(CommandType::Get)
        } else if index == 1 {
            Some(CommandType::Store)
        } else if index == 2 {
            Some(CommandType::Delete)
        } else if index == 3 {
            Some(CommandType::Noop)
        } else {
            None
        }
    }

    /// The tag of this command in the profile encoding.
    pub fn index(&self) -> (r: u32)
        ensures
            r == self.spec_index(),
            r < 4,
            CommandType::spec_from_index(r) == Some(*self),
    {
        match self {
            CommandType::Get => 0,
            CommandType::Store => 1,
            CommandType::Delete => 2,
            CommandType::Noop => 3,
        }
    }

    /// The command tagged `index`; `None` for a tag no command has.
    pub fn from_index(index: u32) -> (r: Option<CommandType>)
        ensures
            r == CommandType::spec_from_index(index),
            r is Some <==> index < 4,
            r matches Some(c) ==> c.spec_index() == index,
    {
        if index == 0 {
            Some(CommandType::Get)
        } else if index == 1 {
            Some(CommandType::Store)
        } else if index == 2 {
            Some(CommandType::Delete)
        } else if index == 3 {
            Some(CommandType::Noop)
        } else {
            None
        }
    }

    /// The name under which statistics list this command.
    pub fn name(&self) -> (r: &'static str)
        ensures
            r@ == match *self {
                CommandType::Get => "Get"@,
                CommandType::Store => "Set"@,
                CommandType::Delete => "Delete"@,
                CommandType::Noop => "Noop"@,
            },
    {
        match self {
            CommandType::Get => "Get",
            CommandType::Store => "Set",
            CommandType::Delete => "Delete",
            CommandType::Noop => "Noop",
        }
    }
}

/// What the server answered to a command.
#[derive(Debug, Clone, Copy, PartialEq, Eq, Structural)]
pub enum Response {
    /// A hit, with the size of the value (0 where the answer carries none).
    Found(u32),
    NotFound,
    Error,
}

/// Bit of [`Flags`] that marks a quiet command.
pub const FLAG_QUIET: u8 = 1;

/// Bit of [`Flags`] that marks a command carrying a value body.
pub const FLAG_VALUE: u8 = 2;

/// A small set of per-command flags, packed into one byte.
#[derive(Debug, Clone, Copy, PartialEq, Eq, Structural)]
pub struct Flags {
    bits: u8,
}

impl Flags {
    /// The packed byte.
    pub closed spec fn spec_bits(self) -> u8 {
        self.bits
    }

    /// Whether the quiet bit is set.
    pub open spec fn quiet(self) -> bool {
        self.spec_bits() & FLAG_QUIET != 0
    }

    /// Whether the carries-value bit is set.
    pub open spec fn value(self) -> bool {
        self.spec_bits() & FLAG_VALUE != 0
    }

    /// The flags packed as `bits`.
    pub closed spec fn spec_from_bits(bits: u8) -> Flags {
        Flags { bits }
    }

    /// Flags are what their packed byte says.
    pub proof fn lemma_bits_round_trip(f: Flags)
        ensures
            Flags::spec_from_bits(f.spec_bits()) == f,
            forall|b: u8| #[trigger] Flags::spec_from_bits(b).spec_bits() == b,
    {
    }

    /// The flags packed as `bits`.
    pub fn from_bits(bits: u8) -> (r: Flags)
        ensures
            r == Flags::spec_from_bits(bits),
            r.spec_bits() == bits,
    {
        Flags { bits }
    }

    /// The packed byte.
    pub fn bits(&self) -> (r: u8)
        ensures
            r == self.spec_bits(),
    {
        self.bits
    }

    /// The empty flag set.
    pub fn empty() -> (r: Flags)
        ensures
            r.spec_bits() == 0,
            !r.quiet(),
            !r.value(),
    {
        assert(0u8 & 1u8 == 0u8) by (bit_vector);
        assert(0u8 & 2u8 == 0u8) by (bit_vector);
        Flags { bits: 0 }
    }

    /// The same flags with the quiet bit set.
    pub fn with_quiet(self) -> (r: Flags)
        ensures
            r.spec_bits() == self.spec_bits() | FLAG_QUIET,
            r.quiet(),
            r.value() == self.value(),
    {
        let bits: u8 = self.bits;
        assert((bits | 1u8) & 1u8 != 0u8) by (bit_vector);
        assert((bits | 1u8) & 2u8 == bits & 2u8) by (bit_vector);
        Flags { bits: bits | FLAG_QUIET }
    }

    /// Whether the quiet bit is set.
    pub fn has_quiet(&self) -> (r: bool)
        ensures
            r == self.quiet(),
    {
        (self.bits & FLAG_QUIET) != 0
    }

    /// The same flags with the carries-value bit set.
    pub fn with_value(self) -> (r: Flags)
        ensures
            r.spec_bits() == self.spec_bits() | FLAG_VALUE,
            r.value(),
            r.quiet() == self.quiet(),
    {
        let bits: u8 = self.bits;
        assert((bits | 2u8) & 2u8 != 0u8) by (bit_vector);
        assert((bits | 2u8) & 1u8 == bits & 1u8) by (bit_vector);
        Flags { bits: bits | FLAG_VALUE }
    }

    /// Whether the carries-value bit is set.
    pub fn has_value(&self) -> (r: bool)
        ensures
            r == self.value(),
    {
        (self.bits & FLAG_VALUE) != 0
    }
}

/// One captured or replayed cache operation, anonymised.
#[derive(Debug, Clone, Copy)]
pub struct Event {
    /// Microseconds since capture start.
    pub timestamp: u64,
    /// The client connection the command was seen on.
    pub conn_id: u16,
    pub cmd_type: CommandType,
    pub flags: Flags,
    /// Keyed fingerprint of the original key.
    pub key_hash: u64,
    /// Length of the original key in bytes.
    pub key_size: u32,
    /// Length of the value body; present on stores only, and never zero.
    pub value_size: Option<u32>,
}

impl Event {
    /// The invariants of the event model: a value size is present exactly on
    /// stores and is positive, and a no-op has no key.
    pub open spec fn valid(self) -> bool {
        &&& self.value_size is Some <==> self.cmd_type == CommandType::Store
        &&& self.value_size != Some(0u32)
        &&& self.cmd_type == CommandType::Noop ==> self.key_size == 0
    }

    /// Whether the event upholds the invariants of the event model.
    pub fn is_valid(&self) -> (r: bool)
        ensures
            r == self.valid(),
    {
        let sized: bool = match self.value_size {
            Some(v) => v != 0 && self.cmd_type == CommandType::Store,
            None => self.cmd_type != CommandType::Store,
        };
        let keyed: bool = self.cmd_type != CommandType::Noop || self.key_size == 0;
        sized && keyed
    }

    /// The event for a command seen on the wire, or `None` where the command
    /// has no place in the event model: a store without a positive value
    /// size. A value size on any other command is dropped, and so is the key
    /// size of a no-op.
    pub fn from_command(
        timestamp: u64,
        conn_id: u16,
        cmd_type: CommandType,
        flags: Flags,
        key_hash: u64,
        key_size: u32,
        value_size: Option<u32>,
    ) -> (r: Option<Event>)
        ensures
            r is Some <==> (cmd_type == CommandType::Store ==> (value_size is Some && value_size
                != Some(0u32))),
            r matches Some(e) ==> {
                &&& e.valid()
                &&& e.timestamp == timestamp
                &&& e.conn_id == conn_id
                &&& e.cmd_type == cmd_type
                &&& e.flags == flags
                &&& e.key_hash == key_hash
                &&& e.key_size == (if cmd_type == CommandType::Noop {
                    0
                } else {
                    key_size
                })
                &&& e.value_size == (if cmd_type == CommandType::Store {
                    value_size
                } else {
                    None
                })
            },
    {
        let is_store: bool = cmd_type == CommandType::Store;
        let is_noop: bool = cmd_type == CommandType::Noop;
        let kept_size: Option<u32> = if is_store {
            value_size
        } else {
            None
        };
        if is_store {
            match value_size {
                None => {
                    return None;
                },
                Some(v) => {
                    if v == 0 {
                        return None;
                    }
                },
            }
        }
        Some(
            Event {
                timestamp,
                conn_id,
                cmd_type,
                flags,
                key_hash,
                key_size: if is_noop {
                    0
                } else {
                    key_size
                },
                value_size: kept_size,
            },
        )
    }
}

/// How often each kind of command occurred. A kind that never occurred
/// counts zero.
#[derive(Debug, Clone, Copy, PartialEq, Eq, Structural)]
pub struct CommandDistribution {
    pub get: u64,
    pub store: u64,
    pub delete: u64,
    pub noop: u64,
}

impl CommandDistribution {
    /// The count of one kind of command.
    pub open spec fn count(self, cmd: CommandType) -> u64 {
        match cmd {
            CommandType::Get => self.get,
            CommandType::Store => self.store,
            CommandType::Delete => self.delete,
            CommandType::Noop => self.noop,
        }
    }

    /// The sum of all counts.
    pub open spec fn total(self) -> int {
        self.get + self.store + self.delete + self.noop
    }

    /// The distribution with the count of `cmd` replaced.
    pub open spec fn with_count(self, cmd: CommandType, count: u64) -> CommandDistribution {
        match cmd {
            CommandType::Get => CommandDistribution { get: count, ..self },
            CommandType::Store => CommandDistribution { store: count, ..self },
            CommandType::Delete => CommandDistribution { delete: count, ..self },
            CommandType::Noop => CommandDistribution { noop: count, ..self },
        }
    }

    /// The distribution of no commands at all.
    pub open spec fn zero() -> CommandDistribution {
        CommandDistribution { get: 0, store: 0, delete: 0, noop: 0 }
    }

    /// The distribution of no commands at all.
    pub fn new() -> (r: CommandDistribution)
        ensures
            r == CommandDistribution::zero(),
            r.total() == 0,
    {
        CommandDistribution { get: 0, store: 0, delete: 0, noop: 0 }
    }

    /// The count of `cmd`.
    pub fn count_of(&self, cmd: CommandType) -> (r: u64)
        ensures
            r == self.count(cmd),
    {
        match cmd {
            CommandType::Get => self.get,
            CommandType::Store => self.store,
            CommandType::Delete => self.delete,
            CommandType::Noop => self.noop,
        }
    }

    /// The count of `cmd` where it occurred at all.
    pub fn get(&self, cmd: &CommandType) -> (r: Option<&u64>)
        ensures
            self.count(*cmd) == 0 ==> r is None,
            self.count(*cmd) != 0 ==> (r matches Some(c) && *c == self.count(*cmd)),
    {
        match cmd {
            CommandType::Get => if self.get != 0 {
                Some(&self.get)
            } else {
                None
            },
            CommandType::Store => if self.store != 0 {
                Some(&self.store)
            } else {
                None
            },
            CommandType::Delete => if self.delete != 0 {
                Some(&self.delete)
            } else {
                None
            },
            CommandType::Noop => if self.noop != 0 {
                Some(&self.noop)
            } else {
                None
            },
        }
    }

    /// Whether `cmd` occurred at all.
    pub fn contains_key(&self, cmd: &CommandType) -> (r: bool)
        ensures
            r == (self.count(*cmd) != 0),
    {
        self.count_of(*cmd) != 0
    }

    /// Replaces the count of `cmd`.
    pub fn insert(&mut self, cmd: CommandType, count: u64)
        ensures
            *final(self) == old(self).with_count(cmd, count),
    {
        match cmd {
            CommandType::Get => {
                self.get = count;
            },
            CommandType::Store => {
                self.store = count;
            },
            CommandType::Delete => {
                self.delete = count;
            },
            CommandType::Noop => {
                self.noop = count;
            },
        }
    }

    /// The sum of all counts.
    pub fn sum(&self) -> (r: u128)
        ensures
            r == self.total(),
    {
        self.get as u128 + self.store as u128 + self.delete as u128 + self.noop as u128
    }
}

/// Marks the end of a profile file.
pub const PROFILE_MAGIC: u32 = 0xDEADBEEF;

/// The schema of the event records this library writes.
pub const PROFILE_VERSION: u8 = 2;

/// The block at the tail of a profile that sums the events up.
#[derive(Debug, Clone, Copy)]
pub struct ProfileMetadata {
    pub magic: u32,
    pub version: u8,
    pub total_events: u64,
    /// The lowest and the highest timestamp among the events.
    pub time_range: (u64, u64),
    pub unique_connections: u32,
    pub command_distribution: CommandDistribution,
}

impl ProfileMetadata {
    /// The invariants of a metadata block: every event is counted under its
    /// command, and the time range is ordered.
    pub open spec fn consistent(self) -> bool {
        &&& self.command_distribution.total() == self.total_events
        &&& self.time_range.0 <= self.time_range.1
    }

    /// The metadata of a profile without events.
    pub fn new() -> (r: ProfileMetadata)
        ensures
            r.magic == PROFILE_MAGIC,
            r.version == PROFILE_VERSION,
            r.total_events == 0,
            r.time_range == (0u64, 0u64),
            r.unique_connections == 0,
            r.command_distribution == CommandDistribution::zero(),
            r.consistent(),
    {
        ProfileMetadata {
            magic: PROFILE_MAGIC,
            version: PROFILE_VERSION,
            total_events: 0,
            time_range: (0, 0),
            unique_connections: 0,
            command_distribution: CommandDistribution::new(),
        }
    }

    /// Whether the block upholds the invariants of a metadata block.
    pub fn is_consistent(&self) -> (r: bool)
        ensures
            r == self.consistent(),
    {
        self.command_distribution.sum() == self.total_events as u128 && self.time_range.0
            <= self.time_range.1
    }
}

impl Default for Flags {
    /// The empty flag set.
    fn default() -> (r: Flags)
        ensures
            r.spec_bits() == 0,
            !r.quiet(),
            !r.value(),
    {
        Flags::empty()
    }
}

impl Default for ProfileMetadata {
    fn default() -> (r: ProfileMetadata)
        ensures
            r.magic == PROFILE_MAGIC,
            r.version == PROFILE_VERSION,
            r.total_events == 0,
            r.time_range == (0u64, 0u64),
            r.unique_connections == 0,
            r.command_distribution == CommandDistribution::zero(),
            r.consistent(),
    {
        ProfileMetadata::new()
    }
}

} // verus!
