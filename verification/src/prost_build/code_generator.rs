//! Small pieces of the code generator that work on names and text alone.

use crate::std_text::{
    char_is_uppercase, char_to_lowercase, is_uppercase_char, lowercase_chars, lowercase_text,
    str_to_lowercase, string_push,
};
use vstd::prelude::*;

verus! {

/// `depth` times four spaces.
pub open spec fn indent(depth: nat) -> Seq<char>
    decreases depth,
{
    if depth == 0 {
        Seq::empty()
    } else {
        indent((depth - 1) as nat) + seq![' ', ' ', ' ', ' ']
    }
}

/// Appends the indentation of `depth` levels: four spaces for each.
pub fn push_indent(buf: &mut String, depth: u8)
    ensures
        final(buf)@ == old(buf)@ + indent(depth as nat),
{
    proof {
        reveal_strlit("    ");
    }
    let mut i: u8 = 0;
    assert(buf@ + indent(0) =~= buf@);
    while i < depth
        invariant
            i <= depth,
            buf@ == old(buf)@ + indent(i as nat),
            "    "@ == seq![' ', ' ', ' ', ' '],
        decreases depth - i,
    {
        buf.append("    ");
        assert(buf@ =~= old(buf)@ + indent((i + 1) as nat));
        i += 1;
    }
}

/// Whether the text `a` begins with the text `b`.
pub fn starts_with(a: &str, b: &str) -> (r: bool)
    ensures
        r == (b@.len() <= a@.len() && a@.take(b@.len() as int) == b@),
{
    let n = b.unicode_len();
    if n > a.unicode_len() {
        return false;
    }
    let mut i: usize = 0;
    while i < n
        invariant
            n == b@.len(),
            n <= a@.len(),
            i <= n,
            forall|j: int| 0 <= j < i ==> a@[j] == b@[j],
        decreases n - i,
    {
        if a.get_char(i) != b.get_char(i) {
            assert(a@.take(b@.len() as int)[i as int] != b@[i as int]);
            return false;
        }
        i += 1;
    }
    assert(a@.take(b@.len() as int) =~= b@);
    true
}

/// The name of an enum value behind the name of its enum, where that is in
/// front, and the name as it is otherwise. The name of the enum counts as
/// in front where the lowercase of the value's name, `lower_name`, begins
/// with the lowercase of the enum's, `lower_prefix`.
pub open spec fn prefix_cut(
    prefix: Seq<char>,
    name: Seq<char>,
    lower_prefix: Seq<char>,
    lower_name: Seq<char>,
) -> Seq<char> {
    if lower_prefix.len() <= lower_name.len() && lower_name.take(lower_prefix.len() as int)
        == lower_prefix && prefix.len() <= name.len() {
        name.skip(prefix.len() as int)
    } else {
        name
    }
}

/// What is kept of the name of an enum value: what is left of it behind the
/// name of its enum, where something is left and it begins with an
/// uppercase character; the whole name otherwise.
pub open spec fn kept_name(name: Seq<char>, rest: Seq<char>, upper: bool) -> Seq<char> {
    if rest.len() > 0 && upper {
        rest
    } else {
        name
    }
}

/// The name of an enum value without the name of its enum in front, where
/// it is in front and what follows begins with an uppercase character; the
/// name as it is otherwise.
pub open spec fn enum_prefix_stripped(prefix: Seq<char>, name: Seq<char>) -> Seq<char> {
    let rest = prefix_cut(prefix, name, lowercase_text(prefix), lowercase_text(name));
    kept_name(name, rest, rest.len() > 0 && is_uppercase_char(rest[0]))
}

/// Cuts the name of the enum off the front of the name of one of its
/// values, given the lowercase of both.
pub fn cut_prefix<'a>(prefix: &str, name: &'a str, lower_prefix: &str, lower_name: &str) -> (rest:
    &'a str)
    ensures
        rest@ == prefix_cut(prefix@, name@, lower_prefix@, lower_name@),
{
    let skip = prefix.unicode_len();
    let len = name.unicode_len();
    if starts_with(lower_name, lower_prefix) && skip <= len {
        let rest = name.substring_char(skip, len);
        assert(rest@ =~= name@.skip(skip as int));
        rest
    } else {
        name
    }
}

/// Keeps what is left of the name where something is left and `upper` says
/// that it begins with an uppercase character, and the whole name
/// otherwise.
pub fn keep_stripped(name: &str, rest: &str, upper: bool) -> (r: String)
    ensures
        r@ == kept_name(name@, rest@, upper),
{
    // If the next character after the stripped prefix is not
    // uppercase, then it means that we didn't have a true prefix -
    // for example, "Foo" should not be stripped from "Foobar".
    if !rest.is_empty() && upper {
        String::from_str(rest)
    } else {
        String::from_str(name)
    }
}

/// Strip an enum's type name from the prefix of an enum value.
///
/// This function assumes that both have been formatted to Rust's naming
/// conventions.
///
/// It also tries to handle cases where the stripped name would be invalid:
/// what is left must begin with an uppercase character, or else the name is
/// kept whole. So "Foo" is not stripped from "Foobar", nor from "Foo1" or
/// "Foo" itself.
pub fn strip_enum_prefix(prefix: &str, name: &str) -> (r: String)
    ensures
        r@ == enum_prefix_stripped(prefix@, name@),
{
    let lower_prefix = str_to_lowercase(prefix);
    let lower_name = str_to_lowercase(name);
    let rest = cut_prefix(prefix, name, lower_prefix.as_str(), lower_name.as_str());
    let upper = !rest.is_empty() && char_is_uppercase(rest.get_char(0));
    keep_stripped(name, rest, upper)
}

/// The snake case of an identifier in camel case: every uppercase
/// character becomes its lowercase, with an underscore in front unless it
/// stands first.
pub open spec fn snake_cased(s: Seq<char>) -> Seq<char>
    decreases s.len(),
{
    if s.len() == 0 {
        Seq::empty()
    } else {
        let front = snake_cased(s.drop_last());
        let c = s.last();
        if is_uppercase_char(c) {
            if front.len() > 0 {
                front.push('_') + lowercase_chars(c)
            } else {
                front + lowercase_chars(c)
            }
        } else {
            front.push(c)
        }
    }
}

/// The identifier in snake case.
pub fn snake_case(s: &str) -> (ident: String)
    ensures
        ident@ == snake_cased(s@),
{
    let mut ident = String::new();
    let len = s.unicode_len();
    let mut i: usize = 0;
    assert(s@.take(0) =~= Seq::<char>::empty());
    while i < len
        invariant
            len == s@.len(),
            i <= len,
            ident@ == snake_cased(s@.take(i as int)),
        decreases len - i,
    {
        let ch = s.get_char(i);
        proof {
            assert(s@.take(i + 1).drop_last() =~= s@.take(i as int));
            assert(s@.take(i + 1).last() == ch);
        }
        if char_is_uppercase(ch) {
            if !ident.as_str().is_empty() {
                string_push(&mut ident, '_');
            }
            let lower = char_to_lowercase(ch);
            let ghost start = ident@;
            let mut j: usize = 0;
            while j < lower.len()
                invariant
                    j <= lower@.len(),
                    ident@ == start + lower@.take(j as int),
                decreases lower@.len() - j,
            {
                string_push(&mut ident, lower[j]);
                assert(ident@ =~= start + lower@.take(j + 1));
                j += 1;
            }
            assert(lower@.take(j as int) =~= lower@);
        } else {
            string_push(&mut ident, ch);
        }
        i += 1;
    }
    assert(s@.take(i as int) =~= s@);
    ident
}

} // verus!
