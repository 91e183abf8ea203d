//! Names and documentation text in the form that generated code takes them:
//! identifiers in upper, Pascal and snake case, descriptions with plain
//! spacing and escaped brackets, and the modules that two paths share.
use vstd::prelude::*;
use vstd::string::*;

verus! {

/// Calls `String::push` of std: the character is added at the end.
#[verifier::external_body]
fn push_char(s: &mut String, c: char)
    ensures
        final(s)@ == old(s)@.push(c),
{
    s.push(c);
}

/// The characters of a text.
pub fn chars_of(s: &str) -> (chars: Vec<char>)
    ensures
        chars@ == s@,
{
    let mut chars: Vec<char> = Vec::new();
    for c in it: s.chars()
        invariant
            it.seq() == s@,
            chars@ == s@.take(it.index() as int),
    {
        chars.push(c);
        assert(chars@ =~= s@.take(it.index() + 1));
    }
    assert(chars@ =~= s@);
    chars
}

/// The text made of a list of characters.
pub fn text_of(chars: &Vec<char>) -> (s: String)
    ensures
        s@ == chars@,
{
    let mut s = String::new();
    let mut i: usize = 0;
    while i < chars.len()
        invariant
            i <= chars.len(),
            s@ == chars@.take(i as int),
        decreases chars.len() - i,
    {
        push_char(&mut s, chars[i]);
        assert(s@ =~= chars@.take(i + 1));
        i += 1;
    }
    assert(chars@.take(i as int) =~= chars@);
    s
}

/// A square bracket.
pub open spec fn is_bracket(c: char) -> bool {
    c == '[' || c == ']'
}

/// The first `n` characters of `s`, with a backslash put before every
/// square bracket that does not follow one.
pub open spec fn escaped(s: Seq<char>, n: nat) -> Seq<char>
    decreases n,
{
    if n == 0 {
        Seq::empty()
    } else {
        let c = s[n - 1];
        let rest = escaped(s, (n - 1) as nat);
        if is_bracket(c) && (n == 1 || s[n - 2] != '\\') {
            rest.push('\\').push(c)
        } else {
            rest.push(c)
        }
    }
}

/// In an escaped text every square bracket follows a backslash.
pub proof fn lemma_escaped(s: Seq<char>, n: nat)
    requires
        n <= s.len(),
    ensures
        n > 0 ==> escaped(s, n).len() > 0 && escaped(s, n).last() == s[n - 1],
        forall|j: int|
            0 <= j < escaped(s, n).len() && is_bracket(#[trigger] escaped(s, n)[j]) ==> j > 0
                && escaped(s, n)[j - 1] == '\\',
    decreases n,
{
    if n > 0 {
        lemma_escaped(s, (n - 1) as nat);
        let rest = escaped(s, (n - 1) as nat);
        let all = escaped(s, n);
        assert forall|j: int| 0 <= j < all.len() && is_bracket(#[trigger] all[j]) implies j > 0
            && all[j - 1] == '\\' by {
            if j < rest.len() {
                assert(all[j] == rest[j]);
                assert(all[j - 1] == rest[j - 1]);
            } else if n > 1 {
                assert(rest.last() == s[n - 2]);
            }
        }
    }
}

/// `s` with a backslash before every square bracket that has none.
pub fn escape_brackets(s: &str) -> (r: String)
    ensures
        r@ == escaped(s@, s@.len()),
{
    let chars = chars_of(s);
    let mut out = String::new();
    let mut i: usize = 0;
    while i < chars.len()
        invariant
            i <= chars.len(),
            chars@ == s@,
            out@ == escaped(s@, i as nat),
        decreases chars.len() - i,
    {
        let c: char = chars[i];
        if (c == '[' || c == ']') && (i == 0 || chars[i - 1] != '\\') {
            push_char(&mut out, '\\');
        }
        push_char(&mut out, c);
        i += 1;
    }
    out
}

/// A blank: space, tab, line feed, carriage return, vertical tab or form
/// feed.
pub open spec fn is_blank(c: char) -> bool {
    c == ' ' || c == '\t' || c == '\n' || c == '\r' || c == '\x0b' || c == '\x0c'
}

/// The first `n` characters of `s` without their blanks, and with one
/// space before every character that follows a blank and is not the first
/// that is kept.
pub open spec fn respaced(s: Seq<char>, n: nat) -> Seq<char>
    decreases n,
{
    if n == 0 {
        Seq::empty()
    } else {
        let c = s[n - 1];
        let rest = respaced(s, (n - 1) as nat);
        if is_blank(c) {
            rest
        } else if rest.len() > 0 && n >= 2 && is_blank(s[n - 2]) {
            rest.push(' ').push(c)
        } else {
            rest.push(c)
        }
    }
}

/// A respaced text neither begins nor ends with a blank, and its only
/// blanks are single spaces.
pub proof fn lemma_respaced(s: Seq<char>, n: nat)
    requires
        n <= s.len(),
    ensures
        respaced(s, n).len() > 0 ==> !is_blank(respaced(s, n).first()) && !is_blank(
            respaced(s, n).last(),
        ),
        forall|j: int|
            0 <= j < respaced(s, n).len() && is_blank(#[trigger] respaced(s, n)[j]) ==> respaced(
                s,
                n,
            )[j] == ' ' && 0 < j < respaced(s, n).len() - 1 && !is_blank(respaced(s, n)[j - 1])
                && !is_blank(respaced(s, n)[j + 1]),
    decreases n,
{
    if n > 0 {
        lemma_respaced(s, (n - 1) as nat);
        let rest = respaced(s, (n - 1) as nat);
        let all = respaced(s, n);
        let c = s[n - 1];
        if !is_blank(c) {
            assert forall|j: int| 0 <= j < all.len() && is_blank(#[trigger] all[j]) implies all[j]
                == ' ' && 0 < j < all.len() - 1 && !is_blank(all[j - 1]) && !is_blank(
                all[j + 1],
            ) by {
                if j < rest.len() {
                    assert(all[j] == rest[j]);
                    assert(is_blank(rest[j]));
                    assert(all[j - 1] == rest[j - 1]);
                    assert(all[j + 1] == rest[j + 1]);
                } else {
                    assert(j == rest.len());
                    assert(all[j - 1] == rest.last());
                }
            }
            if rest.len() > 0 {
                assert(all.first() == rest.first());
            }
        }
    }
}

/// Whether a character is a blank.
pub fn blank(c: char) -> (r: bool)
    ensures
        r == is_blank(c),
{
    c == ' ' || c == '\t' || c == '\n' || c == '\r' || c == '\x0b' || c == '\x0c'
}

/// `s` with every run of blanks made one space, and without blanks at its
/// ends.
pub fn respace(s: &str) -> (r: String)
    ensures
        r@ == respaced(s@, s@.len()),
{
    let chars = chars_of(s);
    let mut out = String::new();
    let mut empty: bool = true;
    let mut i: usize = 0;
    while i < chars.len()
        invariant
            i <= chars.len(),
            chars@ == s@,
            out@ == respaced(s@, i as nat),
            empty == (out@.len() == 0),
        decreases chars.len() - i,
    {
        let c: char = chars[i];
        if !blank(c) {
            if !empty && i >= 1 && blank(chars[i - 1]) {
                push_char(&mut out, ' ');
            }
            push_char(&mut out, c);
            empty = false;
        }
        i += 1;
    }
    out
}

/// A character that vendors use in names and that no identifier holds.
pub open spec fn is_unwanted(c: char) -> bool {
    c == '(' || c == ')' || c == '[' || c == ']' || c == '/' || c == ' ' || c == '-'
}

/// The first `n` characters of `s` without the unwanted ones.
pub open spec fn kept(s: Seq<char>, n: nat) -> Seq<char>
    decreases n,
{
    if n == 0 {
        Seq::empty()
    } else if is_unwanted(s[n - 1]) {
        kept(s, (n - 1) as nat)
    } else {
        kept(s, (n - 1) as nat).push(s[n - 1])
    }
}

/// The characters of `s` without the unwanted ones.
pub open spec fn sanitized(s: Seq<char>) -> Seq<char> {
    kept(s, s.len())
}

pub open spec fn is_lower(c: char) -> bool {
    'a' <= c <= 'z'
}

pub open spec fn is_upper(c: char) -> bool {
    'A' <= c <= 'Z'
}

pub open spec fn is_digit(c: char) -> bool {
    '0' <= c <= '9'
}

/// The capital of a small letter of the Latin alphabet; any other
/// character as it is.
pub open spec fn upper_of(c: char) -> char {
    if is_lower(c) {
        ((c as int) - 32) as char
    } else {
        c
    }
}

/// The small letter of a capital of the Latin alphabet; any other
/// character as it is.
pub open spec fn lower_of(c: char) -> char {
    if is_upper(c) {
        ((c as int) + 32) as char
    } else {
        c
    }
}

/// A name with an underscore before it where it begins with a digit.
pub open spec fn guarded(name: Seq<char>) -> Seq<char> {
    if name.len() > 0 && is_digit(name[0]) {
        seq!['_'] + name
    } else {
        name
    }
}

/// Whether a word begins at position `i` of `k`: with a character that is
/// no underscore and stands first, or behind an underscore, or is a
/// capital behind a small letter or a digit.
pub open spec fn starts_word(k: Seq<char>, i: int) -> bool {
    k[i] != '_' && (i == 0 || k[i - 1] == '_' || (is_upper(k[i]) && (is_lower(k[i - 1])
        || is_digit(k[i - 1]))))
}

/// A name in upper case.
pub open spec fn upper_case(k: Seq<char>) -> Seq<char> {
    k.map_values(|c: char| upper_of(c))
}

/// The first `n` characters of a name in Pascal case: underscores are left
/// out, a word begins with a capital and goes on in small letters.
pub open spec fn pascal_case(k: Seq<char>, n: nat) -> Seq<char>
    decreases n,
{
    if n == 0 {
        Seq::empty()
    } else {
        let c = k[n - 1];
        let rest = pascal_case(k, (n - 1) as nat);
        if c == '_' {
            rest
        } else if starts_word(k, n - 1) {
            rest.push(upper_of(c))
        } else {
            rest.push(lower_of(c))
        }
    }
}

/// The first `n` characters of a name in snake case: all in small letters,
/// with one underscore between two words and none elsewhere.
pub open spec fn snake_case(k: Seq<char>, n: nat) -> Seq<char>
    decreases n,
{
    if n == 0 {
        Seq::empty()
    } else {
        let c = k[n - 1];
        let rest = snake_case(k, (n - 1) as nat);
        if c == '_' {
            rest
        } else if starts_word(k, n - 1) && rest.len() > 0 {
            rest.push('_').push(lower_of(c))
        } else {
            rest.push(lower_of(c))
        }
    }
}

/// A word that the language keeps for itself.
pub open spec fn is_keyword(name: Seq<char>) -> bool {
    name == "as"@ || name == "break"@ || name == "const"@ || name == "continue"@ || name
        == "crate"@ || name == "else"@ || name == "enum"@ || name == "extern"@ || name == "false"@
        || name == "fn"@ || name == "for"@ || name == "if"@ || name == "impl"@ || name == "in"@
        || name == "let"@ || name == "loop"@ || name == "match"@ || name == "mod"@ || name
        == "move"@ || name == "mut"@ || name == "pub"@ || name == "ref"@ || name == "return"@
        || name == "self"@ || name == "static"@ || name == "struct"@ || name == "super"@ || name
        == "trait"@ || name == "true"@ || name == "type"@ || name == "unsafe"@ || name == "use"@
        || name == "where"@ || name == "while"@
}

/// The name of a constant for `s`: without unwanted characters, in upper
/// case, behind an underscore where it would begin with a digit.
pub open spec fn sanitized_upper_case(s: Seq<char>) -> Seq<char> {
    guarded(upper_case(sanitized(s)))
}

/// The name of a type for `s`: without unwanted characters, in Pascal case,
/// behind an underscore where it would begin with a digit.
pub open spec fn sanitized_pascal_case(s: Seq<char>) -> Seq<char> {
    guarded(pascal_case(sanitized(s), sanitized(s).len()))
}

/// The name of a field for `s`: without unwanted characters, in snake case,
/// before an underscore where it would be a keyword, behind one where it
/// would begin with a digit.
pub open spec fn sanitized_snake_case(s: Seq<char>) -> Seq<char> {
    let name = snake_case(sanitized(s), sanitized(s).len());
    if is_keyword(name) {
        name.push('_')
    } else {
        guarded(name)
    }
}

/// The characters of `s` without the unwanted ones.
fn sanitize(s: &str) -> (k: Vec<char>)
    ensures
        k@ == sanitized(s@),
{
    let chars = chars_of(s);
    let mut k: Vec<char> = Vec::new();
    let mut i: usize = 0;
    while i < chars.len()
        invariant
            i <= chars.len(),
            chars@ == s@,
            k@ == kept(s@, i as nat),
        decreases chars.len() - i,
    {
        let c: char = chars[i];
        if !(c == '(' || c == ')' || c == '[' || c == ']' || c == '/' || c == ' ' || c == '-') {
            k.push(c);
        }
        i += 1;
    }
    k
}

/// The capital of a small letter; any other character as it is.
fn to_upper(c: char) -> (r: char)
    ensures
        r == upper_of(c),
{
    if c >= 'a' && c <= 'z' {
        ((c as u8) - 32) as char
    } else {
        c
    }
}

/// The small letter of a capital; any other character as it is.
fn to_lower(c: char) -> (r: char)
    ensures
        r == lower_of(c),
{
    if c >= 'A' && c <= 'Z' {
        ((c as u8) + 32) as char
    } else {
        c
    }
}

/// Whether a word begins at position `i`.
fn word_starts(k: &Vec<char>, i: usize) -> (r: bool)
    requires
        i < k.len(),
    ensures
        r == starts_word(k@, i as int),
{
    let c: char = k[i];
    if c == '_' {
        return false;
    }
    if i == 0 {
        return true;
    }
    let p: char = k[i - 1];
    p == '_' || (c >= 'A' && c <= 'Z' && ((p >= 'a' && p <= 'z') || (p >= '0' && p <= '9')))
}

/// The text of a name, behind an underscore where it begins with a digit.
fn guard(name: &Vec<char>) -> (r: String)
    ensures
        r@ == guarded(name@),
{
    let mut r = String::new();
    if name.len() > 0 && name[0] >= '0' && name[0] <= '9' {
        push_char(&mut r, '_');
    }
    let ghost head = r@;
    let mut i: usize = 0;
    while i < name.len()
        invariant
            i <= name.len(),
            r@ == head + name@.take(i as int),
        decreases name.len() - i,
    {
        push_char(&mut r, name[i]);
        assert(r@ =~= head + name@.take(i + 1));
        i += 1;
    }
    assert(name@.take(i as int) =~= name@);
    assert(r@ =~= guarded(name@));
    r
}

/// The name of a constant for `s`.
pub fn to_sanitized_upper_case(s: &str) -> (r: String)
    ensures
        r@ == sanitized_upper_case(s@),
{
    let k = sanitize(s);
    let mut name: Vec<char> = Vec::new();
    let mut i: usize = 0;
    while i < k.len()
        invariant
            i <= k.len(),
            name@ == upper_case(k@.take(i as int)),
        decreases k.len() - i,
    {
        name.push(to_upper(k[i]));
        assert(name@ =~= upper_case(k@.take(i + 1)));
        i += 1;
    }
    assert(k@.take(i as int) =~= k@);
    guard(&name)
}

/// The name of a type for `s`.
pub fn to_sanitized_pascal_case(s: &str) -> (r: String)
    ensures
        r@ == sanitized_pascal_case(s@),
{
    let k = sanitize(s);
    let mut name: Vec<char> = Vec::new();
    let mut i: usize = 0;
    while i < k.len()
        invariant
            i <= k.len(),
            name@ == pascal_case(k@, i as nat),
        decreases k.len() - i,
    {
        let c: char = k[i];
        if c != '_' {
            if word_starts(&k, i) {
                name.push(to_upper(c));
            } else {
                name.push(to_lower(c));
            }
        }
        i += 1;
    }
    guard(&name)
}

/// Whether `name` is the word `word`.
fn is_word(name: &String, word: &str) -> (r: bool)
    ensures
        r == (name@ == word@),
{
    *name == String::from_str(word)
}

/// Whether a name is a keyword.
pub fn keyword(name: &String) -> (r: bool)
    ensures
        r == is_keyword(name@),
{
    is_word(name, "as") || is_word(name, "break") || is_word(name, "const") || is_word(
        name,
        "continue",
    ) || is_word(name, "crate") || is_word(name, "else") || is_word(name, "enum") || is_word(
        name,
        "extern",
    ) || is_word(name, "false") || is_word(name, "fn") || is_word(name, "for") || is_word(
        name,
        "if",
    ) || is_word(name, "impl") || is_word(name, "in") || is_word(name, "let") || is_word(
        name,
        "loop",
    ) || is_word(name, "match") || is_word(name, "mod") || is_word(name, "move") || is_word(
        name,
        "mut",
    ) || is_word(name, "pub") || is_word(name, "ref") || is_word(name, "return") || is_word(
        name,
        "self",
    ) || is_word(name, "static") || is_word(name, "struct") || is_word(name, "super")
        || is_word(name, "trait") || is_word(name, "true") || is_word(name, "type") || is_word(
        name,
        "unsafe",
    ) || is_word(name, "use") || is_word(name, "where") || is_word(name, "while")
}

/// The name of a field for `s`.
pub fn to_sanitized_snake_case(s: &str) -> (r: String)
    ensures
        r@ == sanitized_snake_case(s@),
{
    let k = sanitize(s);
    let mut name: Vec<char> = Vec::new();
    let mut i: usize = 0;
    while i < k.len()
        invariant
            i <= k.len(),
            name@ == snake_case(k@, i as nat),
        decreases k.len() - i,
    {
        let c: char = k[i];
        if c != '_' {
            if word_starts(&k, i) && name.len() > 0 {
                name.push('_');
            }
            name.push(to_lower(c));
        }
        i += 1;
    }
    let mut plain = text_of(&name);
    if keyword(&plain) {
        push_char(&mut plain, '_');
        plain
    } else {
        guard(&name)
    }
}

/// The modules of a path: all of its parts but the last.
pub open spec fn modules(path: Seq<Seq<char>>) -> Seq<Seq<char>> {
    if path.len() == 0 {
        path
    } else {
        path.drop_last()
    }
}

/// The texts of the parts of a path.
pub open spec fn parts(path: Seq<String>) -> Seq<Seq<char>> {
    path.map_values(|p: String| p@)
}

/// `n` is the number of leading modules that two paths share: they agree
/// on their first `n` modules, and not on the next, if both have one.
pub open spec fn shares_modules(a: Seq<Seq<char>>, b: Seq<Seq<char>>, n: int) -> bool {
    &&& 0 <= n <= modules(a).len()
    &&& n <= modules(b).len()
    &&& forall|i: int| 0 <= i < n ==> modules(a)[i] == modules(b)[i]
    &&& n == modules(a).len() || n == modules(b).len() || modules(a)[n] != modules(b)[n]
}

/// The number of leading modules that the paths `a` and `b` share. The
/// path from the module of `b` to the item `a` goes up by the modules of
/// `b` beyond that number and down by those of `a`.
pub fn shared_modules(a: &Vec<String>, b: &Vec<String>) -> (n: usize)
    ensures
        shares_modules(parts(a@), parts(b@), n as int),
{
    let la: usize = if a.len() == 0 {
        0
    } else {
        a.len() - 1
    };
    let lb: usize = if b.len() == 0 {
        0
    } else {
        b.len() - 1
    };
    let ghost ma = modules(parts(a@));
    let ghost mb = modules(parts(b@));
    let mut n: usize = 0;
    let mut more: bool = true;
    while n < la && n < lb && more
        invariant
            n <= la,
            n <= lb,
            la == ma.len(),
            lb == mb.len(),
            la <= a.len(),
            lb <= b.len(),
            ma == modules(parts(a@)),
            mb == modules(parts(b@)),
            forall|i: int| 0 <= i < n ==> ma[i] == mb[i],
            !more ==> n < la && n < lb && ma[n as int] != mb[n as int],
        decreases la - n + if more { 1int } else { 0int },
    {
        assert(ma[n as int] == a@[n as int]@);
        assert(mb[n as int] == b@[n as int]@);
        if a[n] == b[n] {
            n += 1;
        } else {
            more = false;
        }
    }
    n
}

} // verus!
