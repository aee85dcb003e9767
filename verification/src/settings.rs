//! What the command line settles before a run: which architectures are
//! curated, and under which address the channel is found.

use vstd::prelude::*;
use vstd::string::StringExecFns;

use crate::text::chars_of;
use crate::text::ends_with;
use crate::text::str_eq;

verus! {

/// Whether `c`, a character beyond ASCII, is a letter or a digit, as
/// Unicode has it.
pub uninterp spec fn is_alphanumeric(c: char) -> bool;

/// `char::is_alphanumeric`. Claimed: the answer depends on the character
/// alone.
#[verifier::external_body]
fn char_is_alphanumeric(c: char) -> (res: bool)
    ensures
        res == is_alphanumeric(c),
{
    c.is_alphanumeric()
}

/// Whether `c` is an ASCII letter or digit.
pub open spec fn ascii_alphanumeric(c: char) -> bool {
    ||| '0' as int <= c as int <= '9' as int
    ||| 'a' as int <= c as int <= 'z' as int
    ||| 'A' as int <= c as int <= 'Z' as int
}

/// Whether `c` may stand in an architecture tag: a letter or a digit, a
/// hyphen, an underscore or a full stop.
pub open spec fn architecture_char(c: char) -> bool {
    if (c as int) < 128 {
        ascii_alphanumeric(c) || c == '-' || c == '_' || c == '.'
    } else {
        is_alphanumeric(c)
    }
}

/// Whether `c` may stand in an architecture tag.
pub fn is_architecture_char(c: char) -> (res: bool)
    ensures
        res == architecture_char(c),
{
    let beyond_ascii: char = '\u{80}';
    if c < beyond_ascii {
        (c >= '0' && c <= '9') || (c >= 'a' && c <= 'z') || (c >= 'A' && c <= 'Z') || c == '-' || c
            == '_' || c == '.'
    } else {
        char_is_alphanumeric(c)
    }
}

/// Whether every character of `value` may stand in an architecture tag.
pub open spec fn architecture_chars(value: Seq<char>) -> bool {
    forall|i: int| 0 <= i < value.len() ==> architecture_char(#[trigger] value[i])
}

/// What is wrong with `value` as an architecture tag, if anything: a
/// character that may not stand in one; else that it is empty; else that it
/// is `noarch`, which is always curated and cannot be asked for.
pub open spec fn architecture_fault(value: Seq<char>) -> Option<Seq<char>> {
    if !architecture_chars(value) {
        Some("Invalid architecture. Must be alphanumeric with hyphen or underscores"@)
    } else if value.len() == 0 {
        Some("cannot be an empty string"@)
    } else if value == "noarch"@ {
        Some("noarch may not be specified (it is included implicitly)"@)
    } else {
        None
    }
}

/// Checks an architecture tag given on the command line.
pub fn architectures_parser(value: &str) -> (res: Result<String, &'static str>)
    ensures
        match res {
            Ok(tag) => architecture_fault(value@) is None && tag@ == value@,
            Err(fault) => architecture_fault(value@) == Some(fault@),
        },
{
    let chars = chars_of(value);
    let mut i: usize = 0;
    while i < chars.len()
        invariant
            chars@ == value@,
            i <= chars.len(),
            forall|j: int| 0 <= j < i ==> architecture_char(#[trigger] chars@[j]),
        decreases chars.len() - i,
    {
        if !is_architecture_char(chars[i]) {
            assert(!architecture_char(value@[i as int]));
            return Err("Invalid architecture. Must be alphanumeric with hyphen or underscores");
        }
        i = i + 1;
    }
    if chars.len() == 0 {
        Err("cannot be an empty string")
    } else if str_eq(value, "noarch") {
        Err("noarch may not be specified (it is included implicitly)")
    } else {
        Ok(String::from_str(value))
    }
}

/// The architectures that are curated where none is asked for.
pub open spec fn known_architectures() -> Seq<Seq<char>> {
    seq![
        "freebsd-64"@,
        "linux-32"@,
        "linux-64"@,
        "linux-aarch64"@,
        "linux-armv6l"@,
        "linux-armv7l"@,
        "linux-ppc64"@,
        "linux-ppc64le"@,
        "linux-riscv64"@,
        "linux-s390x"@,
        "osx-64"@,
        "osx-arm64"@,
        "win-32"@,
        "win-64"@,
        "win-arm64"@,
        "zos-z"@,
    ]
}

/// The architectures to curate: those asked for, or all that are known
/// where none is asked for.
pub fn architectures_or_all(asked: Vec<String>) -> (res: Vec<String>)
    ensures
        res@.map_values(|tag: String| tag@) == if asked.len() == 0 {
            known_architectures()
        } else {
            asked@.map_values(|tag: String| tag@)
        },
{
    if asked.len() > 0 {
        return asked;
    }
    let mut res: Vec<String> = Vec::new();
    res.push(String::from_str("freebsd-64"));
    res.push(String::from_str("linux-32"));
    res.push(String::from_str("linux-64"));
    res.push(String::from_str("linux-aarch64"));
    res.push(String::from_str("linux-armv6l"));
    res.push(String::from_str("linux-armv7l"));
    res.push(String::from_str("linux-ppc64"));
    res.push(String::from_str("linux-ppc64le"));
    res.push(String::from_str("linux-riscv64"));
    res.push(String::from_str("linux-s390x"));
    res.push(String::from_str("osx-64"));
    res.push(String::from_str("osx-arm64"));
    res.push(String::from_str("win-32"));
    res.push(String::from_str("win-64"));
    res.push(String::from_str("win-arm64"));
    res.push(String::from_str("zos-z"));
    assert(res@.map_values(|tag: String| tag@) =~= known_architectures());
    res
}

/// The channel's address with a slash at its end.
pub fn with_trailing_slash(channel_alias: String) -> (res: String)
    ensures
        res@ == if "/"@.is_suffix_of(channel_alias@) {
            channel_alias@
        } else {
            channel_alias@ + "/"@
        },
{
    if ends_with(channel_alias.as_str(), "/") {
        channel_alias
    } else {
        channel_alias.concat("/")
    }
}

/// The address under which the packages of `subdir` are found, for an
/// index that does not give one: the channel's address, then the
/// subdirectory, with no slash after it.
pub fn replacement_base_url(channel_alias: &str, subdir: &str) -> (res: String)
    ensures
        res@ == channel_alias@ + subdir@,
{
    let mut url = String::from_str(channel_alias);
    url.append(subdir);
    url
}

} // verus!
