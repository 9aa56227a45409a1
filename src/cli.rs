//! Resolution of abbreviated command names, and validation of task indices
//! given on the command line.
use vstd::prelude::*;
use crate::delay::{digits_value, is_digit};
use crate::errors::CommandError;

verus! {

/// The full command names, in the order in which they are matched.
pub open spec fn command_names() -> Seq<Seq<char>> {
    seq![
        "push"@,
        "backpush"@,
        "pop"@,
        "kill"@,
        "ls"@,
        "swap"@,
        "clear"@,
        "clearall"@,
        "newstack"@,
        "switchto"@,
        "dropstack"@,
        "liststacks"@,
        "triggerreminder"@,
        "remindme"@,
    ]
}

/// The command names that begin with `p`.
pub open spec fn commands_with_prefix(p: Seq<char>) -> Seq<Seq<char>> {
    command_names().filter(|c: Seq<char>| p.is_prefix_of(c))
}

pub open spec fn is_option(p: Seq<char>) -> bool {
    p.len() > 0 && p[0] == '-'
}

fn commands() -> (r: Vec<&'static str>)
    ensures
        r@.map_values(|c: &str| c@) == command_names(),
{
    let r = vec![
        "push",
        "backpush",
        "pop",
        "kill",
        "ls",
        "swap",
        "clear",
        "clearall",
        "newstack",
        "switchto",
        "dropstack",
        "liststacks",
        "triggerreminder",
        "remindme",
    ];
    assert(r@.map_values(|c: &str| c@) =~= command_names());
    r
}

/// Whether `p` is a prefix of `c`.
fn str_is_prefix(p: &str, c: &str) -> (r: bool)
    ensures
        r == p@.is_prefix_of(c@),
{
    let pl = p.unicode_len();
    let cl = c.unicode_len();
    if pl > cl {
        return false;
    }
    let mut i: usize = 0;
    while i < pl
        invariant
            i <= pl <= cl,
            pl == p@.len(),
            cl == c@.len(),
            forall|j: int| 0 <= j < i ==> p@[j] == c@[j],
        decreases pl - i,
    {
        if p.get_char(i) != c.get_char(i) {
            return false;
        }
        i = i + 1;
    }
    assert(p@ =~= c@.subrange(0, p@.len() as int));
    true
}

fn str_eq(a: &str, b: &str) -> (r: bool)
    ensures
        r == (a@ == b@),
{
    if a.unicode_len() != b.unicode_len() {
        return false;
    }
    let r = str_is_prefix(a, b);
    if r {
        assert(a@ =~= b@);
    }
    r
}

/// Resolve `prefix` into the full command name. An exact name resolves to
/// itself, even where it begins another name; otherwise `prefix` must begin
/// exactly one name. An argument that begins with `-` is an option and passes
/// through unchanged.
pub fn resolve_command<'a>(prefix: &'a str) -> (r: Result<&'a str, CommandError>)
    ensures
        is_option(prefix@) ==> (r matches Ok(s) && s@ == prefix@),
        !is_option(prefix@) && command_names().contains(prefix@) ==> (r matches Ok(s) && s@
            == prefix@),
        !is_option(prefix@) && !command_names().contains(prefix@) ==> {
            let ms = commands_with_prefix(prefix@);
            &&& ms.len() == 0 ==> (r matches Err(CommandError::NoMatchingCommand(e)) && e@
                == prefix@)
            &&& ms.len() > 1 ==> (r matches Err(CommandError::AmbiguousPrefix(e)) && e@
                == prefix@)
            &&& ms.len() == 1 ==> (r matches Ok(s) && s@ == ms[0])
        },
{
    if prefix.unicode_len() > 0 && prefix.get_char(0) == '-' {
        return Ok(prefix);
    }
    let cmds = commands();
    let ghost names = command_names();
    let ghost pv = prefix@;
    let mut matcher: &'a str = prefix;
    let mut num_matches: usize = 0;
    let mut i: usize = 0;
    proof {
        command_names().take(0).lemma_filter_len(|c: Seq<char>| pv.is_prefix_of(c));
        assert(names.take(0).filter(|c: Seq<char>| pv.is_prefix_of(c)).len() == 0);
    }
    while i < cmds.len()
        invariant
            i <= cmds.len(),
            cmds@.map_values(|c: &str| c@) == names,
            names == command_names(),
            pv == prefix@,
            forall|j: int| 0 <= j < i ==> names[j] != pv,
            num_matches == names.take(i as int).filter(|c: Seq<char>| pv.is_prefix_of(c)).len(),
            num_matches > 0 ==> matcher@ == names.take(i as int).filter(
                |c: Seq<char>| pv.is_prefix_of(c),
            ).last(),
        decreases cmds.len() - i,
    {
        let c = cmds[i];
        assert(c@ == names[i as int]);
        proof {
            assert(names.take(i + 1) =~= names.take(i as int).push(names[i as int]));
            names.take(i as int).lemma_filter_push(
                names[i as int],
                |c: Seq<char>| pv.is_prefix_of(c),
            );
        }
        if str_eq(c, prefix) {
            assert(names.contains(pv)) by {
                assert(names[i as int] == pv);
            }
            return Ok(c);
        } else if str_is_prefix(prefix, c) {
            matcher = c;
            num_matches = num_matches + 1;
        }
        i = i + 1;
    }
    proof {
        assert(names.take(names.len() as int) =~= names);
        assert(!names.contains(pv));
    }
    if num_matches == 0 {
        Err(CommandError::NoMatchingCommand(String::from_str(prefix)))
    } else if num_matches > 1 {
        Err(CommandError::AmbiguousPrefix(String::from_str(prefix)))
    } else {
        Ok(matcher)
    }
}

/// `s` without its leading `+`, if it has one.
pub open spec fn number_body(s: Seq<char>) -> Seq<char> {
    if s.len() > 0 && s[0] == '+' {
        s.skip(1)
    } else {
        s
    }
}

pub open spec fn all_digits(s: Seq<char>) -> bool {
    forall|j: int| 0 <= j < s.len() ==> is_digit(#[trigger] s[j])
}

/// The `u32` that `s` spells in decimal, with an optional leading `+`, if it
/// spells one.
pub open spec fn u32_value(s: Seq<char>) -> Option<nat> {
    let body = number_body(s);
    if body.len() > 0 && all_digits(body) && digits_value(body) <= u32::MAX {
        Some(digits_value(body))
    } else {
        None
    }
}

proof fn lemma_digits_value_grows(a: Seq<char>, c: char)
    ensures
        digits_value(a.push(c)) >= digits_value(a),
{
    assert(a.push(c).drop_last() =~= a);
}

proof fn lemma_digits_value_prefix(a: Seq<char>, j: int)
    requires
        0 <= j <= a.len(),
    ensures
        digits_value(a.take(j)) <= digits_value(a),
    decreases a.len() - j,
{
    if j < a.len() {
        lemma_digits_value_prefix(a, j + 1);
        assert(a.take(j + 1) =~= a.take(j).push(a[j]));
        lemma_digits_value_grows(a.take(j), a[j]);
    } else {
        assert(a.take(j) =~= a);
    }
}

/// Parse a task index: decimal digits with an optional leading `+`.
pub fn parse_task_index(arg: &str) -> (r: Option<u32>)
    ensures
        r matches Some(v) ==> u32_value(arg@) == Some(v as nat),
        r is None ==> u32_value(arg@) is None,
{
    let len = arg.unicode_len();
    let start: usize = if len > 0 && arg.get_char(0) == '+' {
        1
    } else {
        0
    };
    let ghost body = arg@.skip(start as int);
    proof {
        if start == 0 {
            assert(body =~= arg@);
        } else {
            assert(arg@.len() > 0 && arg@[0] == '+');
        }
        assert(body.take(0) =~= Seq::<char>::empty());
        assert(body == number_body(arg@));
    }
    if start >= len {
        return None;
    }
    let mut v: u64 = 0;
    let mut i: usize = start;
    while i < len
        invariant
            start <= i <= len,
            len == arg@.len(),
            body == arg@.skip(start as int),
            body == number_body(arg@),
            body.len() > 0,
            v as nat == digits_value(body.take(i - start)),
            v <= u32::MAX,
            forall|j: int| 0 <= j < i - start ==> is_digit(#[trigger] body[j]),
        decreases len - i,
    {
        let c = arg.get_char(i);
        assert(c == body[i - start]);
        if !('0' <= c && c <= '9') {
            assert(!is_digit(body[i - start]));
            assert(!all_digits(body));
            return None;
        }
        proof {
            assert(body.take(i - start + 1) =~= body.take(i - start).push(c));
            assert(body.take(i - start + 1).drop_last() =~= body.take(i - start));
        }
        v = v * 10 + ((c as u32) - ('0' as u32)) as u64;
        if v > 4294967295 {
            proof {
                lemma_digits_value_prefix(body, i - start + 1);
                assert(digits_value(body) > u32::MAX);
            }
            return None;
        }
        i = i + 1;
    }
    assert(body.take(len - start) =~= body);
    Some(v as u32)
}

/// What `u32`'s parse error says of `s`.
pub uninterp spec fn u32_parse_error_text(s: Seq<char>) -> Seq<char>;

/// Relies on `<u32 as FromStr>::from_str`, which accepts an optional `+`
/// followed by decimal digits whose value fits in a `u32`, and on the
/// `Display` text of the `ParseIntError` it returns otherwise, which depends
/// on the string alone.
#[verifier::external_body]
fn parse_u32(arg: &str) -> (r: Result<u32, String>)
    ensures
        r matches Ok(v) ==> u32_value(arg@) == Some(v as nat),
        r is Err ==> u32_value(arg@) is None,
        r matches Err(e) ==> e@ == u32_parse_error_text(arg@),
{
    arg.parse::<u32>().map_err(|e| e.to_string())
}

/// The message that rejects `arg` as a task index, given the parse error's
/// text `reason`.
pub fn invalid_index_message(arg: &str, reason: &str) -> (r: String)
    ensures
        r@ == arg@ + " is not a valid unsigned number: "@ + reason@,
{
    String::from_str(arg).concat(" is not a valid unsigned number: ").concat(reason)
}

/// Check that `arg` is a task index; the error says that it is not, and why.
pub fn is_task_index(arg: &str) -> (r: Result<(), String>)
    ensures
        r is Ok <==> u32_value(arg@) is Some,
        r matches Err(e) ==> e@ == arg@ + " is not a valid unsigned number: "@
            + u32_parse_error_text(arg@),
{
    match parse_u32(arg) {
        Ok(_) => Ok(()),
        Err(reason) => Err(invalid_index_message(arg, reason.as_str())),
    }
}

} // verus!
