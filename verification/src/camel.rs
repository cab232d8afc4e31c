//! Naming of exported functions: snake_case to camelCase, and the package
//! name given in the export attribute.

use vstd::prelude::*;
use vstd::string::StrSliceExecFns;

verus! {

/// The first character of the uppercase mapping of `c`, as the standard
/// library's `char::to_uppercase` gives it.
pub uninterp spec fn uppercase_first(c: char) -> char;

/// Calls `char::to_uppercase` and takes the first character it yields (the
/// mapping always yields at least one). Claimed: the result depends on `c`
/// alone; an ASCII lowercase letter maps to its uppercase letter, and any other
/// ASCII character maps to itself.
#[verifier::external_body]
fn first_uppercase(c: char) -> (r: char)
    ensures
        r == uppercase_first(c),
        'a' <= c <= 'z' ==> r as u32 == c as u32 - 32,
        (c as u32) < 128 && !('a' <= c <= 'z') ==> r == c,
{
    c.to_uppercase().next().unwrap()
}

/// Calls `String::push`. Claimed: the character is appended.
#[verifier::external_body]
fn push_char(s: &mut String, c: char)
    ensures
        final(s)@ == old(s)@.push(c),
{
    s.push(c)
}

/// The state of the conversion after reading some characters, with `upper`
/// as the capitalization of a letter: the output so far, whether the next
/// character starts a word, and whether a word that starts now is
/// capitalized (it is when something was written before it).
pub open spec fn camel_state_with(s: Seq<char>, upper: spec_fn(char) -> char) -> (Seq<char>, bool, bool)
    decreases s.len(),
{
    if s.len() == 0 {
        (seq![], true, false)
    } else {
        let (out, at_start, capitalize) = camel_state_with(s.drop_last(), upper);
        let c = s.last();
        if c == '_' {
            (out, true, out.len() > 0)
        } else if at_start && capitalize {
            (out.push(upper(c)), false, capitalize)
        } else {
            (out.push(c), false, capitalize)
        }
    }
}

/// The state of the conversion, capitalizing as `char::to_uppercase` does.
pub open spec fn camel_state(s: Seq<char>) -> (Seq<char>, bool, bool) {
    camel_state_with(s, |c: char| uppercase_first(c))
}

/// The uppercase of an ASCII character: a lowercase letter becomes its
/// uppercase letter, anything else stays.
pub open spec fn ascii_upper(c: char) -> char {
    if 'a' <= c <= 'z' {
        ((c as u32) - 32) as char
    } else {
        c
    }
}

/// Every character of `s` is ASCII.
pub open spec fn is_ascii(s: Seq<char>) -> bool {
    forall|i: int| 0 <= i < s.len() ==> (#[trigger] s[i] as u32) < 128
}

/// The camelCase form of an ASCII snake_case name.
pub open spec fn camel_case_ascii(s: Seq<char>) -> Seq<char> {
    camel_state_with(s, |c: char| ascii_upper(c)).0
}

/// The camelCase form of a snake_case name: the underscores go, and every word
/// after the first non-empty one starts with its uppercase letter.
pub open spec fn camel_case(s: Seq<char>) -> Seq<char> {
    camel_state(s).0
}

/// Converts a snake_case name to camelCase.
pub fn to_camel_case(input: &str) -> (r: String)
    ensures
        r@ == camel_case(input@),
        is_ascii(input@) ==> r@ == camel_case_ascii(input@),
{
    let mut output = String::new();
    let len = input.unicode_len();
    let mut at_start = true;
    let mut capitalize = false;
    let mut i: usize = 0;
    while i < len
        invariant
            len == input@.len(),
            i <= len,
            camel_state(input@.take(i as int)) == (output@, at_start, capitalize),
            is_ascii(input@) ==> camel_state_with(input@.take(i as int), |c: char| ascii_upper(c))
                == (output@, at_start, capitalize),
        decreases len - i,
    {
        let c = input.get_char(i);
        assert(input@.take(i + 1).drop_last() =~= input@.take(i as int));
        assert(input@.take(i + 1).last() == c);
        if c == '_' {
            at_start = true;
            capitalize = output.unicode_len() > 0;
        } else {
            if at_start && capitalize {
                let u = first_uppercase(c);
                proof {
                    if is_ascii(input@) {
                        assert((input@[i as int] as u32) < 128);
                        if 'a' <= c <= 'z' {
                            assert(u == ((c as u32) - 32) as char);
                        }
                        assert(u == ascii_upper(c));
                    }
                }
                push_char(&mut output, u);
            } else {
                push_char(&mut output, c);
            }
            at_start = false;
        }
        i = i + 1;
    }
    assert(input@.take(len as int) =~= input@);
    output
}

/// A name without underscores is left as it is.
pub proof fn lemma_camel_without_underscore(s: Seq<char>)
    requires
        forall|i: int| 0 <= i < s.len() ==> s[i] != '_',
    ensures
        camel_case(s) == s,
        s.len() > 0 ==> !camel_state(s).1,
    decreases s.len(),
{
    if s.len() > 0 {
        lemma_camel_without_underscore(s.drop_last());
        assert(s.drop_last().push(s.last()) =~= s);
        if s.len() == 1 {
            assert(s.drop_last().len() == 0);
        }
    }
}

/// A token of an attribute's arguments, as the compiler spells it.
pub enum Token {
    Ident(String),
    Punct(char),
    Literal(String),
    Group,
}

/// A token as plain values.
pub enum TokenView {
    Ident(Seq<char>),
    Punct(char),
    Literal(Seq<char>),
    Group,
}

impl View for Token {
    type V = TokenView;

    open spec fn view(&self) -> TokenView {
        match self {
            Token::Ident(s) => TokenView::Ident(s@),
            Token::Punct(c) => TokenView::Punct(*c),
            Token::Literal(s) => TokenView::Literal(s@),
            Token::Group => TokenView::Group,
        }
    }
}

/// The word `package`.
pub open spec fn package_word() -> Seq<char> {
    seq!['p', 'a', 'c', 'k', 'a', 'g', 'e']
}

/// `s` without its double quotes.
pub open spec fn unquoted(s: Seq<char>) -> Seq<char>
    decreases s.len(),
{
    if s.len() == 0 {
        seq![]
    } else if s.last() == '"' {
        unquoted(s.drop_last())
    } else {
        unquoted(s.drop_last()).push(s.last())
    }
}

/// The package named by attribute arguments of the form `package = "..."`:
/// the literal without its quotes. Only the first three tokens are read.
pub open spec fn package_name_of(tokens: Seq<TokenView>) -> Option<Seq<char>> {
    if tokens.len() >= 3 && tokens[0] is Ident && tokens[1] is Punct && tokens[2] is Literal
        && tokens[0]->Ident_0 == package_word() && tokens[1]->Punct_0 == '=' {
        Some(unquoted(tokens[2]->Literal_0))
    } else {
        None
    }
}

fn is_package_word(s: &String) -> (r: bool)
    ensures
        r == (s@ == package_word()),
{
    let word = "package";
    proof {
        reveal_strlit("package");
    }
    let len = s.as_str().unicode_len();
    if len != 7 {
        return false;
    }
    let mut i: usize = 0;
    while i < len
        invariant
            len == s@.len() == 7,
            word@ == package_word(),
            i <= len,
            forall|j: int| 0 <= j < i ==> s@[j] == package_word()[j],
        decreases len - i,
    {
        if s.as_str().get_char(i) != word.get_char(i) {
            return false;
        }
        i = i + 1;
    }
    assert(s@ =~= package_word());
    true
}

fn without_quotes(s: &String) -> (r: String)
    ensures
        r@ == unquoted(s@),
{
    let mut out = String::new();
    let len = s.as_str().unicode_len();
    let mut i: usize = 0;
    while i < len
        invariant
            len == s@.len(),
            i <= len,
            out@ == unquoted(s@.take(i as int)),
        decreases len - i,
    {
        let c = s.as_str().get_char(i);
        assert(s@.take(i + 1).drop_last() =~= s@.take(i as int));
        if c != '"' {
            push_char(&mut out, c);
        }
        i = i + 1;
    }
    assert(s@.take(len as int) =~= s@);
    out
}

/// Reads the package name from the export attribute's arguments
/// `package = "..."`.
pub fn get_package_name(attr: &[Token]) -> (r: Option<String>)
    ensures
        match r {
            Some(name) => package_name_of(attr@.map_values(|t: Token| t@)) == Some(name@),
            None => package_name_of(attr@.map_values(|t: Token| t@)) is None,
        },
{
    let ghost tokens = attr@.map_values(|t: Token| t@);
    if attr.len() < 3 {
        return None;
    }
    assert(tokens[0] == attr@[0]@ && tokens[1] == attr@[1]@ && tokens[2] == attr@[2]@);
    match (&attr[0], &attr[1], &attr[2]) {
        (Token::Ident(ident), Token::Punct(punct), Token::Literal(literal)) => {
            if is_package_word(ident) && *punct == '=' {
                Some(without_quotes(literal))
            } else {
                None
            }
        },
        _ => None,
    }
}

/// The characters of `s` appended to `out`.
fn push_str_chars(out: &mut String, s: &str)
    ensures
        final(out)@ == old(out)@ + s@,
{
    let len = s.unicode_len();
    let mut i: usize = 0;
    while i < len
        invariant
            len == s@.len(),
            i <= len,
            out@ == old(out)@ + s@.take(i as int),
        decreases len - i,
    {
        push_char(out, s.get_char(i));
        i = i + 1;
        assert(out@ =~= old(out)@ + s@.take(i as int));
    }
    assert(s@.take(len as int) =~= s@);
}

/// The name under which a public method `method` of class `class` in
/// package `package` is exported to Java: `Java_`, the package, the class and
/// the method's camelCase name, joined by underscores.
pub open spec fn export_name_of(package: Seq<char>, class: Seq<char>, method: Seq<char>) -> Seq<char> {
    seq!['J', 'a', 'v', 'a', '_'] + package + seq!['_'] + class + seq!['_'] + camel_case(method)
}

/// The exported name of a public method, as the export attribute writes it.
pub fn export_name(package: &str, class: &str, method: &str) -> (r: String)
    ensures
        r@ == export_name_of(package@, class@, method@),
{
    let mut out = String::new();
    push_char(&mut out, 'J');
    push_char(&mut out, 'a');
    push_char(&mut out, 'v');
    push_char(&mut out, 'a');
    push_char(&mut out, '_');
    push_str_chars(&mut out, package);
    push_char(&mut out, '_');
    push_str_chars(&mut out, class);
    push_char(&mut out, '_');
    let name = to_camel_case(method);
    push_str_chars(&mut out, name.as_str());
    assert(out@ =~= export_name_of(package@, class@, method@));
    out
}

} // verus!
