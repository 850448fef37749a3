//! The "toro" command grammar: a small textual order language with a parser
//! and a canonical printer.
//!
//! Grammar: `<command-phrase> [for table <integer>] [: <parameter-list>]`.
//! Command phrases are `new order`, `cancel`, `check` and `yeet`.  The
//! parameter list is comma-separated; each entry is either a bare menu name
//! or `name * quantity`, and the two forms may not be mixed.  The canonical
//! text doubles as the storage format, so parsing and printing are specified
//! as one unit.

use crate::chars::{
    chars_to_string, contains_char, eq_chars, find_char, find_char_at, has_char, i64_text, join_with,
    lemma_find_char_props, parse_i64, parse_i64_at, parse_usize, parse_usize_at, split2, split2_at,
    split_all, split_all_at, to_chars, trim, trim_slice, u64_digits,
};
use crate::chars::push_i64_text;
use crate::chars::push_u64_digits;
use vstd::prelude::*;

verus! {

/// The four command kinds of the order language.
#[derive(Debug, Clone, Copy, PartialEq, Eq, Structural)]
pub enum Command {
    New,
    Cancel,
    Check,
    Yeet,
}

/// The parameter list of a command: quantity entries for `New`/`Cancel`,
/// bare menu names for `Check`.
#[derive(Debug, PartialEq)]
pub enum Param {
    MenuQuantities(Vec<(String, i64)>),
    Menu(Vec<String>),
}

/// Mathematical image of a parameter list.
pub enum ParamV {
    MenuQuantities(Seq<(Seq<char>, i64)>),
    Menu(Seq<Seq<char>>),
}

/// Mathematical image of a quantity-entry vector.
pub open spec fn quants_view(v: Seq<(String, i64)>) -> Seq<(Seq<char>, i64)> {
    Seq::new(v.len(), |i: int| (v[i].0@, v[i].1))
}

/// Mathematical image of a menu-name vector.
pub open spec fn menus_view(v: Seq<String>) -> Seq<Seq<char>> {
    Seq::new(v.len(), |i: int| v[i]@)
}

impl View for Param {
    type V = ParamV;

    open spec fn view(&self) -> ParamV {
        match self {
            Param::MenuQuantities(v) => ParamV::MenuQuantities(quants_view(v@)),
            Param::Menu(v) => ParamV::Menu(menus_view(v@)),
        }
    }
}

/// A parsed command: its kind, the optional target table, and the optional
/// parameter list.
#[derive(Debug, PartialEq)]
pub struct Toro {
    pub command: Command,
    pub table_id: Option<usize>,
    pub param: Option<Param>,
}

/// Mathematical image of a parsed command.
pub struct ToroV {
    pub command: Command,
    pub table_id: Option<usize>,
    pub param: Option<ParamV>,
}

impl View for Toro {
    type V = ToroV;

    open spec fn view(&self) -> ToroV {
        ToroV {
            command: self.command,
            table_id: self.table_id,
            param: match self.param {
                Some(p) => Some(p@),
                None => None,
            },
        }
    }
}

/// Why a command text was rejected: the grammar failures, then the
/// integrity failures.
#[derive(Debug, Clone, Copy, PartialEq, Eq, Structural)]
pub enum ToroError {
    /// The command phrase is none of the four known ones.
    UnknownCommand,
    /// The text after `for table` is not a table number.
    BadTableNumber,
    /// A `:` with nothing after it.
    EmptyParam,
    /// Parameter entries mix the bare and the quantity form.
    InconsistentParams,
    /// The text after `*` is not a quantity.
    BadQuantity,
    /// `new order`, `cancel` and `check` need a table id.
    MissingTableId,
    /// `new order` and `cancel` need a non-empty quantity-form list.
    MissingParam,
    /// The parameter form does not fit the command.
    WrongParamKind,
    /// `yeet` takes neither a table id nor parameters.
    YeetTakesNothing,
}

// ---------------------------------------------------------------------------
// The parser, specified
// ---------------------------------------------------------------------------

/// Reading of a trimmed command phrase.
pub open spec fn spec_parse_command(s: Seq<char>) -> Option<Command> {
    if s == "new order"@ {
        Some(Command::New)
    } else if s == "cancel"@ {
        Some(Command::Cancel)
    } else if s == "check"@ {
        Some(Command::Check)
    } else if s == "yeet"@ {
        Some(Command::Yeet)
    } else {
        None
    }
}

/// Reading of the part left of `:`: the command phrase, then an optional
/// table number after the first `for table`.
pub open spec fn spec_parse_left(s: Seq<char>) -> Result<(Command, Option<usize>), ToroError> {
    let t = trim(s);
    let parts = split2(t, "for table"@);
    match spec_parse_command(trim(parts.0)) {
        None => Err(ToroError::UnknownCommand),
        Some(c) => match parts.1 {
            None => Ok((c, None)),
            Some(ts) => match parse_usize(trim(ts)) {
                None => Err(ToroError::BadTableNumber),
                Some(n) => Ok((c, Some(n))),
            },
        },
    }
}

/// Reading of one quantity entry, already split on commas: the name before
/// the first `*`, the quantity after it, both trimmed.
pub open spec fn spec_parse_quant_entry(e: Seq<char>) -> Result<(Seq<char>, i64), ToroError> {
    let t = trim(e);
    match find_char(t, '*') {
        None => Err(ToroError::InconsistentParams),
        Some(i) => {
            let name = trim(t.subrange(0, i));
            match parse_i64(trim(t.subrange(i + 1, t.len() as int))) {
                None => Err(ToroError::BadQuantity),
                Some(q) => Ok((name, q)),
            }
        },
    }
}

/// Reading of the quantity entries from position `i` on; the first failing
/// entry decides the error.
pub open spec fn spec_parse_quants_from(entries: Seq<Seq<char>>, i: int) -> Result<
    Seq<(Seq<char>, i64)>,
    ToroError,
>
    decreases entries.len() - i,
{
    if i < 0 || i >= entries.len() {
        Ok(Seq::empty())
    } else {
        match spec_parse_quant_entry(entries[i]) {
            Err(e) => Err(e),
            Ok(mq) => match spec_parse_quants_from(entries, i + 1) {
                Err(e) => Err(e),
                Ok(rest) => Ok(seq![mq] + rest),
            },
        }
    }
}

/// Reading of a quantity-form parameter list: every comma-separated entry
/// must hold a `*`, and every quantity must be a number.
pub open spec fn spec_parse_quants(s: Seq<char>) -> Result<ParamV, ToroError> {
    let entries = split_all(trim(s), ',');
    if exists|i: int| 0 <= i < entries.len() && !has_char(#[trigger] entries[i], '*') {
        Err(ToroError::InconsistentParams)
    } else {
        match spec_parse_quants_from(entries, 0) {
            Err(e) => Err(e),
            Ok(v) => Ok(ParamV::MenuQuantities(v)),
        }
    }
}

/// Reading of a bare-name parameter list: the trimmed comma-separated
/// entries, kept verbatim.
pub open spec fn spec_parse_menu(s: Seq<char>) -> Seq<Seq<char>> {
    split_all(trim(s), ',').map(|i: int, e: Seq<char>| trim(e))
}

/// Reading of the part right of `:`.  An empty text is refused; a `*`
/// anywhere selects the quantity form for every entry.
pub open spec fn spec_parse_param(s: Seq<char>) -> Result<ParamV, ToroError> {
    if s.len() == 0 {
        Err(ToroError::EmptyParam)
    } else if has_char(s, '*') {
        spec_parse_quants(s)
    } else {
        Ok(ParamV::Menu(spec_parse_menu(s)))
    }
}

/// The integrity rule, applied after the structural parse: `new order` and
/// `cancel` need a table id and a non-empty quantity-form list; `check`
/// needs a table id and takes no quantity-form list; `yeet` takes nothing.
pub open spec fn spec_integrity(c: Command, tid: Option<usize>, p: Option<ParamV>) -> Result<
    (),
    ToroError,
> {
    match c {
        Command::New | Command::Cancel => {
            if tid is None {
                Err(ToroError::MissingTableId)
            } else {
                match p {
                    None => Err(ToroError::MissingParam),
                    Some(ParamV::Menu(_)) => Err(ToroError::WrongParamKind),
                    Some(ParamV::MenuQuantities(v)) => {
                        if v.len() == 0 {
                            Err(ToroError::MissingParam)
                        } else {
                            Ok(())
                        }
                    },
                }
            }
        },
        Command::Check => {
            if tid is None {
                Err(ToroError::MissingTableId)
            } else {
                match p {
                    Some(ParamV::MenuQuantities(_)) => Err(ToroError::WrongParamKind),
                    _ => Ok(()),
                }
            }
        },
        Command::Yeet => {
            if tid is Some || p is Some {
                Err(ToroError::YeetTakesNothing)
            } else {
                Ok(())
            }
        },
    }
}

/// A command that the integrity rule accepts.
pub open spec fn wf_toro(t: ToroV) -> bool {
    spec_integrity(t.command, t.table_id, t.param) is Ok
}

/// Reading of a whole command text: trim, split at the first `:`, read both
/// sides, then apply the integrity rule.
pub open spec fn spec_parse(input: Seq<char>) -> Result<ToroV, ToroError> {
    let t = trim(input);
    let parts = split2(t, ":"@);
    match spec_parse_left(parts.0) {
        Err(e) => Err(e),
        Ok((c, tid)) => {
            let pr: Result<Option<ParamV>, ToroError> = match parts.1 {
                None => Ok(None),
                Some(r) => match spec_parse_param(r) {
                    Ok(p) => Ok(Some(p)),
                    Err(e) => Err(e),
                },
            };
            match pr {
                Err(e) => Err(e),
                Ok(param) => match spec_integrity(c, tid, param) {
                    Err(e) => Err(e),
                    Ok(_) => Ok(ToroV { command: c, table_id: tid, param }),
                },
            }
        },
    }
}

// ---------------------------------------------------------------------------
// The printer, specified
// ---------------------------------------------------------------------------

/// Canonical text of one quantity entry.
pub open spec fn quant_entry_text(name: Seq<char>, q: i64) -> Seq<char> {
    name + " * "@ + i64_text(q as int)
}

/// Canonical text of a parameter list.
pub open spec fn param_text(p: ParamV) -> Seq<char> {
    match p {
        ParamV::MenuQuantities(v) => join_with(
            v.map(|i: int, mq: (Seq<char>, i64)| quant_entry_text(mq.0, mq.1)),
            ", "@,
        ),
        ParamV::Menu(v) => join_with(v, ", "@),
    }
}

/// Canonical text of a whole command, defined for commands that the
/// integrity rule accepts.  `check` without parameters has no `:`.
pub open spec fn spec_serialize(t: ToroV) -> Seq<char> {
    match t.command {
        Command::New => "new order for table "@ + u64_digits(t.table_id->Some_0 as int) + ": "@
            + param_text(t.param->Some_0),
        Command::Cancel => "cancel for table "@ + u64_digits(t.table_id->Some_0 as int) + ": "@
            + param_text(t.param->Some_0),
        Command::Check => match t.param {
            Some(p) => "check for table "@ + u64_digits(t.table_id->Some_0 as int) + ": "@
                + param_text(p),
            None => "check for table "@ + u64_digits(t.table_id->Some_0 as int),
        },
        Command::Yeet => "yeet"@,
    }
}

// ---------------------------------------------------------------------------
// The printer, executable
// ---------------------------------------------------------------------------

/// Appends a character slice to a character vector.
pub fn extend_chars(out: &mut Vec<char>, src: &[char])
    ensures
        final(out)@ == old(out)@ + src@,
{
    let mut i: usize = 0;
    while i < src.len()
        invariant
            i <= src@.len(),
            out@ == old(out)@ + src@.subrange(0, i as int),
        decreases src@.len() - i,
    {
        out.push(src[i]);
        proof {
            assert(out@ =~= old(out)@ + src@.subrange(0, i + 1 as int));
        }
        i = i + 1;
    }
    proof {
        assert(out@ =~= old(out)@ + src@);
    }
}

/// Appends the canonical text of a quantity list to `out`.
fn push_quants_text(v: &Vec<(String, i64)>, out: &mut Vec<char>)
    ensures
        final(out)@ == old(out)@ + param_text(ParamV::MenuQuantities(quants_view(v@))),
{
    let ghost entries = quants_view(v@).map(
        |i: int, mq: (Seq<char>, i64)| quant_entry_text(mq.0, mq.1),
    );
    let mut i: usize = 0;
    while i < v.len()
        invariant
            i <= v@.len(),
            entries == quants_view(v@).map(
                |k: int, mq: (Seq<char>, i64)| quant_entry_text(mq.0, mq.1),
            ),
            out@ == old(out)@ + join_prefix(entries, i as int),
        decreases v@.len() - i,
    {
        let ghost snap = out@;
        if i > 0 {
            let sep = to_chars(", ");
            extend_chars(out, sep.as_slice());
        }
        let name = to_chars(v[i].0.as_str());
        extend_chars(out, name.as_slice());
        let star = to_chars(" * ");
        extend_chars(out, star.as_slice());
        push_i64_text(v[i].1, out);
        proof {
            assert(entries[i as int] == quant_entry_text(v@[i as int].0@, v@[i as int].1));
            if i > 0 {
                assert(out@ =~= snap + ", "@ + entries[i as int]);
            } else {
                assert(out@ =~= snap + entries[i as int]);
            }
            lemma_join_prefix_step(entries, i as int);
            assert(out@ =~= old(out)@ + join_prefix(entries, i + 1 as int));
        }
        i = i + 1;
    }
    proof {
        lemma_join_prefix_all(entries);
        assert(entries.len() == v@.len());
        assert(out@ =~= old(out)@ + param_text(ParamV::MenuQuantities(quants_view(v@))));
    }
}

/// Appends the canonical text of a bare-name list to `out`.
fn push_menu_text(v: &Vec<String>, out: &mut Vec<char>)
    ensures
        final(out)@ == old(out)@ + param_text(ParamV::Menu(menus_view(v@))),
{
    let ghost entries = menus_view(v@);
    let mut i: usize = 0;
    while i < v.len()
        invariant
            i <= v@.len(),
            entries == menus_view(v@),
            out@ == old(out)@ + join_prefix(entries, i as int),
        decreases v@.len() - i,
    {
        let ghost snap = out@;
        if i > 0 {
            let sep = to_chars(", ");
            extend_chars(out, sep.as_slice());
        }
        let name = to_chars(v[i].as_str());
        extend_chars(out, name.as_slice());
        proof {
            assert(entries[i as int] == v@[i as int]@);
            if i > 0 {
                assert(out@ =~= snap + ", "@ + entries[i as int]);
            } else {
                assert(out@ =~= snap + entries[i as int]);
            }
            lemma_join_prefix_step(entries, i as int);
            assert(out@ =~= old(out)@ + join_prefix(entries, i + 1 as int));
        }
        i = i + 1;
    }
    proof {
        lemma_join_prefix_all(entries);
        assert(out@ =~= old(out)@ + param_text(ParamV::Menu(menus_view(v@))));
    }
}

/// The first `i` parts of a joined list, separator `", "`.
pub open spec fn join_prefix(parts: Seq<Seq<char>>, i: int) -> Seq<char>
    decreases i,
{
    if i <= 0 {
        Seq::empty()
    } else if i == 1 {
        parts[0]
    } else {
        join_prefix(parts, i - 1) + ", "@ + parts[i - 1]
    }
}

/// Adding one part extends the joined prefix by a separator and the part.
proof fn lemma_join_prefix_step(parts: Seq<Seq<char>>, i: int)
    requires
        0 <= i,
    ensures
        i == 0 ==> join_prefix(parts, 1) == parts[0],
        i > 0 ==> join_prefix(parts, i + 1) == join_prefix(parts, i) + ", "@ + parts[i],
{
}

/// The full joined prefix is the join of all parts.
proof fn lemma_join_prefix_all(parts: Seq<Seq<char>>)
    ensures
        join_prefix(parts, parts.len() as int) == join_with(parts, ", "@),
    decreases parts.len(),
{
    if parts.len() <= 1 {
    } else {
        let rest = parts.drop_first();
        lemma_join_prefix_all(rest);
        lemma_join_front(parts);
        lemma_join_prefix_shift(parts, parts.len() as int);
    }
}

/// Joining from the front: the first part, a separator, then the join of
/// the rest.
proof fn lemma_join_front(parts: Seq<Seq<char>>)
    requires
        parts.len() >= 2,
    ensures
        join_with(parts, ", "@) == parts[0] + ", "@ + join_with(parts.drop_first(), ", "@),
{
}

/// A joined prefix of the tail, shifted by one.
proof fn lemma_join_prefix_shift(parts: Seq<Seq<char>>, i: int)
    requires
        2 <= i <= parts.len(),
    ensures
        join_prefix(parts, i) == parts[0] + ", "@ + join_prefix(parts.drop_first(), i - 1),
    decreases i,
{
    let rest = parts.drop_first();
    if i == 2 {
        assert(join_prefix(parts, 2) == parts[0] + ", "@ + parts[1]);
        assert(join_prefix(rest, 1) == rest[0]);
        assert(rest[0] == parts[1]);
    } else {
        lemma_join_prefix_shift(parts, i - 1);
        assert(join_prefix(parts, i) == join_prefix(parts, i - 1) + ", "@ + parts[i - 1]);
        assert(rest[i - 2] == parts[i - 1]);
        assert((parts[0] + ", "@ + join_prefix(rest, i - 2)) + ", "@ + rest[i - 2] =~= parts[0]
            + ", "@ + (join_prefix(rest, i - 2) + ", "@ + rest[i - 2]));
    }
}

impl Toro {
    /// The integrity rule on a structured command.
    pub fn integrity_check(&self) -> (r: Result<(), ToroError>)
        ensures
            r == spec_integrity(self@.command, self@.table_id, self@.param),
    {
        match self.command {
            Command::New | Command::Cancel => {
                if self.table_id.is_none() {
                    Err(ToroError::MissingTableId)
                } else {
                    match &self.param {
                        None => Err(ToroError::MissingParam),
                        Some(Param::Menu(_)) => Err(ToroError::WrongParamKind),
                        Some(Param::MenuQuantities(v)) => {
                            if v.len() == 0 {
                                Err(ToroError::MissingParam)
                            } else {
                                Ok(())
                            }
                        },
                    }
                }
            },
            Command::Check => {
                if self.table_id.is_none() {
                    Err(ToroError::MissingTableId)
                } else {
                    match &self.param {
                        Some(Param::MenuQuantities(_)) => Err(ToroError::WrongParamKind),
                        _ => Ok(()),
                    }
                }
            },
            Command::Yeet => {
                if self.table_id.is_some() || self.param.is_some() {
                    Err(ToroError::YeetTakesNothing)
                } else {
                    Ok(())
                }
            },
        }
    }

    /// Prints the canonical text of a command that the integrity rule
    /// accepts; re-parsing that text reproduces the command.
    pub fn to_toro_string(&self) -> (r: String)
        requires
            wf_toro(self@),
        ensures
            r@ == spec_serialize(self@),
    {
        let mut out: Vec<char> = Vec::new();
        match self.command {
            Command::New | Command::Cancel => {
                let head = match self.command {
                    Command::New => to_chars("new order for table "),
                    _ => to_chars("cancel for table "),
                };
                extend_chars(&mut out, head.as_slice());
                let tid = match self.table_id {
                    Some(t) => t,
                    None => 0,  // unreachable: the integrity rule demands a table id
                };
                push_u64_digits(tid as u64, &mut out);
                let colon = to_chars(": ");
                extend_chars(&mut out, colon.as_slice());
                match &self.param {
                    Some(Param::MenuQuantities(v)) => {
                        push_quants_text(v, &mut out);
                    },
                    _ => {},  // unreachable: the integrity rule demands quantities
                }
                proof {
                    assert(out@ =~= spec_serialize(self@));
                }
            },
            Command::Check => {
                let head = to_chars("check for table ");
                extend_chars(&mut out, head.as_slice());
                let tid = match self.table_id {
                    Some(t) => t,
                    None => 0,  // unreachable: the integrity rule demands a table id
                };
                push_u64_digits(tid as u64, &mut out);
                match &self.param {
                    Some(Param::Menu(v)) => {
                        let colon = to_chars(": ");
                        extend_chars(&mut out, colon.as_slice());
                        push_menu_text(v, &mut out);
                    },
                    None => {},
                    _ => {},  // unreachable: the integrity rule refuses quantities
                }
                proof {
                    assert(out@ =~= spec_serialize(self@));
                }
            },
            Command::Yeet => {
                let word = to_chars("yeet");
                extend_chars(&mut out, word.as_slice());
                proof {
                    assert(out@ =~= spec_serialize(self@));
                }
            },
        }
        chars_to_string(&out)
    }
}


// ---------------------------------------------------------------------------
// The parser, executable
// ---------------------------------------------------------------------------

/// Reads a trimmed command phrase.
fn parse_command_chars(s: &[char]) -> (r: Option<Command>)
    ensures
        r == spec_parse_command(s@),
{
    let w_new = to_chars("new order");
    let w_cancel = to_chars("cancel");
    let w_check = to_chars("check");
    let w_yeet = to_chars("yeet");
    if eq_chars(s, w_new.as_slice()) {
        Some(Command::New)
    } else if eq_chars(s, w_cancel.as_slice()) {
        Some(Command::Cancel)
    } else if eq_chars(s, w_check.as_slice()) {
        Some(Command::Check)
    } else if eq_chars(s, w_yeet.as_slice()) {
        Some(Command::Yeet)
    } else {
        None
    }
}

/// Reads the part left of `:`.
fn parse_left_chars(s: &[char]) -> (r: Result<(Command, Option<usize>), ToroError>)
    ensures
        r == spec_parse_left(s@),
{
    let t = trim_slice(s);
    let pat = to_chars("for table");
    proof {
        reveal_strlit("for table");
    }
    let (cmd_part, tid_part) = split2_at(t.as_slice(), pat.as_slice());
    let cmd_trimmed = trim_slice(cmd_part.as_slice());
    match parse_command_chars(cmd_trimmed.as_slice()) {
        None => Err(ToroError::UnknownCommand),
        Some(c) => match tid_part {
            None => Ok((c, None)),
            Some(ts) => {
                let ts_trimmed = trim_slice(ts.as_slice());
                match parse_usize_at(ts_trimmed.as_slice()) {
                    None => Err(ToroError::BadTableNumber),
                    Some(n) => Ok((c, Some(n))),
                }
            },
        },
    }
}

/// Reads one quantity entry.
fn parse_quant_entry_chars(e: &[char]) -> (r: Result<(String, i64), ToroError>)
    ensures
        match r {
            Ok(mq) => spec_parse_quant_entry(e@) == Ok::<(Seq<char>, i64), ToroError>(
                (mq.0@, mq.1),
            ),
            Err(err) => spec_parse_quant_entry(e@) == Err::<(Seq<char>, i64), ToroError>(err),
        },
{
    let t = trim_slice(e);
    match find_char_at(t.as_slice(), '*') {
        None => Err(ToroError::InconsistentParams),
        Some(i) => {
            proof {
                lemma_find_char_props(t@, '*');
            }
            let name_part = crate::chars::subrange_vec(t.as_slice(), 0, i);
            let name = trim_slice(name_part.as_slice());
            let num_part = crate::chars::subrange_vec(t.as_slice(), i + 1, t.len());
            let num = trim_slice(num_part.as_slice());
            match parse_i64_at(num.as_slice()) {
                None => Err(ToroError::BadQuantity),
                Some(q) => Ok((chars_to_string(&name), q)),
            }
        },
    }
}

/// Reads a quantity-form parameter list.
fn parse_quants_chars(s: &[char]) -> (r: Result<Param, ToroError>)
    ensures
        match r {
            Ok(p) => spec_parse_quants(s@) == Ok::<ParamV, ToroError>(p@) && p is MenuQuantities,
            Err(e) => spec_parse_quants(s@) == Err::<ParamV, ToroError>(e),
        },
{
    let t = trim_slice(s);
    let entries = split_all_at(t.as_slice(), ',');
    let ghost entries_v = split_all(trim(s@), ',');
    proof {
        assert(entries.deep_view() == entries_v);
        assert(entries@.len() == entries_v.len());
    }
    // every entry must hold a star
    let mut i: usize = 0;
    while i < entries.len()
        invariant
            i <= entries@.len(),
            entries.deep_view() == entries_v,
            entries_v == split_all(trim(s@), ','),
            forall|j: int| 0 <= j < i ==> has_char(#[trigger] entries_v[j], '*'),
        decreases entries@.len() - i,
    {
        proof {
            assert(entries@[i as int]@ == entries_v[i as int]);
        }
        if !contains_char(entries[i].as_slice(), '*') {
            proof {
                assert(!has_char(entries_v[i as int], '*'));
                assert(i < entries_v.len());
                assert(exists|j: int|
                    0 <= j < split_all(trim(s@), ',').len() && !has_char(
                        #[trigger] split_all(trim(s@), ',')[j],
                        '*',
                    )) by {
                    assert(!has_char(split_all(trim(s@), ',')[i as int], '*'));
                }
            }
            return Err(ToroError::InconsistentParams);
        }
        i = i + 1;
    }
    assert(forall|j: int| 0 <= j < entries_v.len() ==> has_char(#[trigger] entries_v[j], '*'));
    // read the entries in order; the first failure decides
    let mut out: Vec<(String, i64)> = Vec::new();
    let mut k: usize = 0;
    while k < entries.len()
        invariant
            k <= entries@.len(),
            entries.deep_view() == entries_v,
            entries_v == split_all(trim(s@), ','),
            forall|j: int| 0 <= j < entries_v.len() ==> has_char(#[trigger] entries_v[j], '*'),
            forall|j: int|
                0 <= j < k ==> spec_parse_quant_entry(#[trigger] entries_v[j]) == Ok::<
                    (Seq<char>, i64),
                    ToroError,
                >(quants_view(out@)[j]),
            out@.len() == k,
        decreases entries@.len() - k,
    {
        proof {
            assert(entries@[k as int]@ == entries_v[k as int]);
        }
        match parse_quant_entry_chars(entries[k].as_slice()) {
            Err(e) => {
                proof {
                    lemma_parse_quants_first_err(entries_v, k as int, e);
                    assert(!(exists|j: int|
                        0 <= j < split_all(trim(s@), ',').len() && !has_char(
                            #[trigger] split_all(trim(s@), ',')[j],
                            '*',
                        )));
                }
                return Err(e);
            },
            Ok(mq) => {
                let ghost old_out = out@;
                let ghost mq_name = mq.0@;
                let ghost mq_q = mq.1;
                out.push(mq);
                proof {
                    assert forall|j: int|
                        0 <= j < k + 1 implies spec_parse_quant_entry(#[trigger] entries_v[j])
                        == Ok::<(Seq<char>, i64), ToroError>(quants_view(out@)[j]) by {
                        if j < k {
                            assert(out@[j] == old_out[j]);
                            assert(quants_view(out@)[j] == quants_view(old_out)[j]);
                        } else {
                            assert(quants_view(out@)[j] == (mq_name, mq_q));
                        }
                    }
                }
            },
        }
        k = k + 1;
    }
    proof {
        lemma_parse_quants_all_ok(entries_v, quants_view(out@));
        assert(!(exists|j: int|
            0 <= j < split_all(trim(s@), ',').len() && !has_char(
                #[trigger] split_all(trim(s@), ',')[j],
                '*',
            )));
    }
    Ok(Param::MenuQuantities(out))
}

/// When entries before `k` read cleanly and entry `k` fails, the whole list
/// fails with that error.
proof fn lemma_parse_quants_first_err(entries: Seq<Seq<char>>, k: int, e: ToroError)
    requires
        0 <= k < entries.len(),
        forall|j: int| 0 <= j < k ==> spec_parse_quant_entry(#[trigger] entries[j]) is Ok,
        spec_parse_quant_entry(entries[k]) == Err::<(Seq<char>, i64), ToroError>(e),
    ensures
        spec_parse_quants_from(entries, 0) == Err::<Seq<(Seq<char>, i64)>, ToroError>(e),
    decreases entries.len(),
{
    lemma_parse_quants_first_err_from(entries, 0, k, e);
}

proof fn lemma_parse_quants_first_err_from(entries: Seq<Seq<char>>, i: int, k: int, e: ToroError)
    requires
        0 <= i <= k < entries.len(),
        forall|j: int| 0 <= j < k ==> spec_parse_quant_entry(#[trigger] entries[j]) is Ok,
        spec_parse_quant_entry(entries[k]) == Err::<(Seq<char>, i64), ToroError>(e),
    ensures
        spec_parse_quants_from(entries, i) == Err::<Seq<(Seq<char>, i64)>, ToroError>(e),
    decreases entries.len() - i,
{
    if i < k {
        lemma_parse_quants_first_err_from(entries, i + 1, k, e);
    }
}

/// When every entry reads to the matching element of `vals`, the whole list
/// reads to `vals`.
pub proof fn lemma_parse_quants_all_ok(entries: Seq<Seq<char>>, vals: Seq<(Seq<char>, i64)>)
    requires
        entries.len() == vals.len(),
        forall|j: int|
            0 <= j < entries.len() ==> spec_parse_quant_entry(#[trigger] entries[j]) == Ok::<
                (Seq<char>, i64),
                ToroError,
            >(vals[j]),
    ensures
        spec_parse_quants_from(entries, 0) == Ok::<Seq<(Seq<char>, i64)>, ToroError>(vals),
{
    lemma_parse_quants_all_ok_from(entries, vals, 0);
    assert(vals.subrange(0, vals.len() as int) =~= vals);
}

proof fn lemma_parse_quants_all_ok_from(entries: Seq<Seq<char>>, vals: Seq<(Seq<char>, i64)>, i: int)
    requires
        0 <= i <= entries.len(),
        entries.len() == vals.len(),
        forall|j: int|
            0 <= j < entries.len() ==> spec_parse_quant_entry(#[trigger] entries[j]) == Ok::<
                (Seq<char>, i64),
                ToroError,
            >(vals[j]),
    ensures
        spec_parse_quants_from(entries, i) == Ok::<Seq<(Seq<char>, i64)>, ToroError>(
            vals.subrange(i, vals.len() as int),
        ),
    decreases entries.len() - i,
{
    if i >= entries.len() {
        assert(vals.subrange(i, vals.len() as int) =~= Seq::<(Seq<char>, i64)>::empty());
    } else {
        lemma_parse_quants_all_ok_from(entries, vals, i + 1);
        assert(seq![vals[i]] + vals.subrange(i + 1, vals.len() as int) =~= vals.subrange(
            i,
            vals.len() as int,
        ));
    }
}

/// Reads a bare-name parameter list.
fn parse_menu_chars(s: &[char]) -> (r: Param)
    ensures
        r@ == ParamV::Menu(spec_parse_menu(s@)),
{
    let t = trim_slice(s);
    let entries = split_all_at(t.as_slice(), ',');
    let ghost entries_v = split_all(trim(s@), ',');
    let mut out: Vec<String> = Vec::new();
    let mut i: usize = 0;
    while i < entries.len()
        invariant
            i <= entries@.len(),
            entries.deep_view() == entries_v,
            entries_v == split_all(trim(s@), ','),
            out@.len() == i,
            forall|j: int| 0 <= j < i ==> menus_view(out@)[j] == trim(#[trigger] entries_v[j]),
        decreases entries@.len() - i,
    {
        proof {
            assert(entries@[i as int]@ == entries_v[i as int]);
        }
        let trimmed = trim_slice(entries[i].as_slice());
        out.push(chars_to_string(&trimmed));
        i = i + 1;
    }
    proof {
        assert(menus_view(out@) =~= spec_parse_menu(s@));
    }
    Param::Menu(out)
}

/// Reads the part right of `:`.
fn parse_param_chars(s: &[char]) -> (r: Result<Param, ToroError>)
    ensures
        match r {
            Ok(p) => spec_parse_param(s@) == Ok::<ParamV, ToroError>(p@),
            Err(e) => spec_parse_param(s@) == Err::<ParamV, ToroError>(e),
        },
{
    if s.len() == 0 {
        return Err(ToroError::EmptyParam);
    }
    if contains_char(s, '*') {
        match parse_quants_chars(s) {
            Ok(p) => Ok(p),
            Err(e) => Err(e),
        }
    } else {
        Ok(parse_menu_chars(s))
    }
}

impl Toro {
    /// Parses a command text: trim, split at the first `:`, read the command
    /// phrase and table number on the left and the parameter list on the
    /// right, then apply the integrity rule.  Returns exactly what
    /// `spec_parse` reads, and an error for every text the grammar refuses.
    pub fn from_toro_string(input: &str) -> (r: Result<Toro, ToroError>)
        ensures
            match r {
                Ok(t) => spec_parse(input@) == Ok::<ToroV, ToroError>(t@) && wf_toro(t@),
                Err(e) => spec_parse(input@) == Err::<ToroV, ToroError>(e),
            },
    {
        let chars = to_chars(input);
        let t = trim_slice(chars.as_slice());
        let colon = to_chars(":");
        proof {
            reveal_strlit(":");
        }
        let (left, right) = split2_at(t.as_slice(), colon.as_slice());
        match parse_left_chars(left.as_slice()) {
            Err(e) => Err(e),
            Ok((command, table_id)) => {
                let param: Option<Param> = match right {
                    None => None,
                    Some(r_part) => {
                        match parse_param_chars(r_part.as_slice()) {
                            Ok(p) => Some(p),
                            Err(e) => {
                                return Err(e);
                            },
                        }
                    },
                };
                let toro = Toro { command, table_id, param };
                match toro.integrity_check() {
                    Err(e) => Err(e),
                    Ok(_) => Ok(toro),
                }
            },
        }
    }
}


} // verus!
