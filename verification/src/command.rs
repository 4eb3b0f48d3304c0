//! Building version-control command invocations, and the small rules the
//! surrounding layers decide by.
use vstd::prelude::*;

use crate::text::join_with;

verus! {

/// A command invocation under construction: the subcommand and its
/// arguments, run by the surrounding layer.
#[derive(Debug, Clone)]
pub struct GitCommand {
    pub command: String,
    pub args: Vec<String>,
}

impl GitCommand {
    /// Start building an invocation of one subcommand.
    pub fn new(command: &str) -> (r: Self)
        ensures
            r.command@ == command@,
            r.args@.len() == 0,
    {
        Self { command: command.to_owned(), args: Vec::new() }
    }

    /// Append one argument.
    pub fn arg(&mut self, arg: &str) -> (nothing: ())
        ensures
            final(self).command == old(self).command,
            final(self).args.deep_view() == old(self).args.deep_view().push(arg@),
    {
        self.args.push(arg.to_owned());
        proof {
            assert(self.args.deep_view() =~= old(self).args.deep_view().push(arg@));
        }
    }

    /// Append one argument only when the condition holds.
    pub fn arg_if(&mut self, arg: &str, condition: bool) -> (nothing: ())
        ensures
            final(self).command == old(self).command,
            final(self).args.deep_view() == if condition {
                old(self).args.deep_view().push(arg@)
            } else {
                old(self).args.deep_view()
            },
    {
        if condition {
            self.arg(arg);
        }
    }

    /// The format string for a field listing: each field prefixed with a
    /// percent sign, joined with the separator.
    pub fn create_format_arg(fields: &Vec<String>, separator: &str) -> (r: String)
        ensures
            r@ == join_with(
                fields.deep_view().map_values(|f: Seq<char>| seq!['%'] + f),
                separator@,
            ),
    {
        let mut pieces: Vec<String> = Vec::new();
        let mut i: usize = 0;
        proof {
            assert(pieces.deep_view() =~= fields.deep_view().subrange(0, 0).map_values(
                |f: Seq<char>| seq!['%'] + f,
            ));
        }
        while i < fields.len()
            invariant
                i <= fields@.len(),
                fields.deep_view().len() == fields@.len(),
                pieces.deep_view() == fields.deep_view().subrange(0, i as int).map_values(
                    |f: Seq<char>| seq!['%'] + f,
                ),
            decreases fields@.len() - i,
        {
            let mut piece = "%".to_owned();
            piece.append(fields[i].as_str());
            proof {
                reveal_strlit("%");
                assert("%"@ =~= seq!['%']);
                assert(piece@ == seq!['%'] + fields.deep_view()[i as int]);
            }
            let ghost old_dv = pieces.deep_view();
            pieces.push(piece);
            proof {
                assert(pieces.deep_view() =~= old_dv.push(seq!['%'] + fields.deep_view()[
                    i as int]));
                assert(fields.deep_view().subrange(0, i + 1 as int) =~= fields.deep_view()
                    .subrange(0, i as int).push(fields.deep_view()[i as int]));
                assert(pieces.deep_view() =~= fields.deep_view().subrange(0, i + 1 as int)
                    .map_values(|f: Seq<char>| seq!['%'] + f));
            }
            i += 1;
        }
        proof {
            assert(fields.deep_view().subrange(0, fields@.len() as int) =~= fields.deep_view());
        }
        crate::text::join_strings(&pieces, separator)
    }
}

/// Whether a logged command only queried state or changed it.
#[derive(Debug, Clone, Copy, PartialEq, Eq, Structural)]
pub enum GitCommandType {
    Query,
    Mutation,
}

/// The code each command type is stored as.
pub open spec fn command_type_code(t: GitCommandType) -> int {
    match t {
        GitCommandType::Query => 0,
        GitCommandType::Mutation => 1,
    }
}

impl GitCommandType {
    /// Read a stored command type code.
    pub fn from_code(value: i64) -> (r: Option<Self>)
        ensures
            match r {
                Some(t) => command_type_code(t) == value,
                None => value != 0 && value != 1,
            },
    {
        if value == 0 {
            Some(Self::Query)
        } else if value == 1 {
            Some(Self::Mutation)
        } else {
            None
        }
    }

    pub fn to_code(self) -> (r: i64)
        ensures
            r == command_type_code(self),
    {
        match self {
            Self::Query => 0,
            Self::Mutation => 1,
        }
    }
}

/// How many command log entries of one type are kept.
pub const LOG_LIMIT: i64 = 200;

/// How many oldest log entries to delete so the stored count returns to
/// the limit.
pub fn log_entries_to_delete(count: i64) -> (r: i64)
    ensures
        r == if count > LOG_LIMIT {
            count - LOG_LIMIT
        } else {
            0
        },
{
    if count > LOG_LIMIT {
        count - LOG_LIMIT
    } else {
        0
    }
}

/// Whether the requested repository is the one already open, in which
/// case switching is a no-op.
pub fn repository_already_open(current: Option<i64>, requested: Option<i64>) -> (r: bool)
    ensures
        r == (current == requested),
{
    match (current, requested) {
        (Some(a), Some(b)) => a == b,
        (None, None) => true,
        _ => false,
    }
}

} // verus!
