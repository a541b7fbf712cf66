//! Name codec: the selection kind that sentinel characters in a raw name
//! encode, and the display name left once every sentinel token is removed.
//!
//! Decoding priority, highest first: `~` Locked, `^` ParentLocked,
//! `=` RadioChecked, `-` or `+` Radio, a trailing `#` RadioFolder,
//! `!` Unchecked, and Checked otherwise.
//!
//! The tokens that sanitizing removes are `$1` to `$9` and the single
//! characters `^ + = # ! ~ *`. They are removed until none is left, so a
//! token that only appears once another one is gone (`$^1`) goes as well:
//! the display name never holds a token, and sanitizing it again changes
//! nothing.

use crate::text::{chars_of, string_of};
use vstd::prelude::*;

verus! {

/// How an option may be selected. The declaration order is the order used
/// when flattened options are sorted.
#[derive(Debug, Clone, Copy, PartialEq, Eq, Structural, PartialOrd, Ord, Hash)]
pub enum RadioCheck {
    Radio,
    RadioChecked,
    RadioFolder,
    Checked,
    Unchecked,
    Locked,
    ParentLocked,
}

/// A kind name that names no selection kind.
#[derive(Debug, Clone, PartialEq, Eq)]
pub struct UnknownKind {
    pub name: String,
}

/// Position of a kind in the declaration order.
pub open spec fn kind_rank(k: RadioCheck) -> int {
    match k {
        RadioCheck::Radio => 0,
        RadioCheck::RadioChecked => 1,
        RadioCheck::RadioFolder => 2,
        RadioCheck::Checked => 3,
        RadioCheck::Unchecked => 4,
        RadioCheck::Locked => 5,
        RadioCheck::ParentLocked => 6,
    }
}

/// The kind that the sentinels of a raw name select.
pub open spec fn kind_of(name: Seq<char>) -> RadioCheck {
    if name.contains('~') {
        RadioCheck::Locked
    } else if name.contains('^') {
        RadioCheck::ParentLocked
    } else if name.contains('=') {
        RadioCheck::RadioChecked
    } else if name.contains('-') || name.contains('+') {
        RadioCheck::Radio
    } else if name.len() > 0 && name.last() == '#' {
        RadioCheck::RadioFolder
    } else if name.contains('!') {
        RadioCheck::Unchecked
    } else {
        RadioCheck::Checked
    }
}

/// The kind whose own name is `name`, if any.
pub open spec fn kind_named(name: Seq<char>) -> Option<RadioCheck> {
    if name == "Radio"@ {
        Some(RadioCheck::Radio)
    } else if name == "RadioChecked"@ {
        Some(RadioCheck::RadioChecked)
    } else if name == "RadioFolder"@ {
        Some(RadioCheck::RadioFolder)
    } else if name == "Checked"@ {
        Some(RadioCheck::Checked)
    } else if name == "Unchecked"@ {
        Some(RadioCheck::Unchecked)
    } else if name == "Locked"@ {
        Some(RadioCheck::Locked)
    } else if name == "ParentLocked"@ {
        Some(RadioCheck::ParentLocked)
    } else {
        None
    }
}

/// A single-character sentinel token.
pub open spec fn is_marker(c: char) -> bool {
    c == '^' || c == '+' || c == '=' || c == '#' || c == '!' || c == '~' || c == '*'
}

/// A digit that, right after `$`, forms a slot token `$1` to `$9`.
pub open spec fn is_slot_digit(c: char) -> bool {
    '1' <= c && c <= '9'
}

/// `s` holds no sentinel token.
pub open spec fn is_clean(s: Seq<char>) -> bool {
    &&& forall|i: int| 0 <= i < s.len() ==> !is_marker(#[trigger] s[i])
    &&& forall|i: int| 0 <= i < s.len() - 1 ==> !(#[trigger] s[i] == '$' && is_slot_digit(s[i + 1]))
}

/// The display name of a raw name: the characters read one by one, a marker
/// dropped, and a slot digit that follows a kept `$` taking that `$` away
/// with it.
pub open spec fn sanitized(s: Seq<char>) -> Seq<char>
    decreases s.len(),
{
    if s.len() == 0 {
        s
    } else {
        let rest = sanitized(s.drop_last());
        let c = s.last();
        if is_marker(c) {
            rest
        } else if is_slot_digit(c) && rest.len() > 0 && rest.last() == '$' {
            rest.drop_last()
        } else {
            rest.push(c)
        }
    }
}

/// A sanitized name holds no sentinel token.
pub proof fn lemma_sanitized_is_clean(s: Seq<char>)
    ensures
        is_clean(sanitized(s)),
    decreases s.len(),
{
    if s.len() > 0 {
        lemma_sanitized_is_clean(s.drop_last());
        let rest = sanitized(s.drop_last());
        let r = sanitized(s);
        assert forall|i: int| 0 <= i < r.len() - 1 implies !(#[trigger] r[i] == '$'
            && is_slot_digit(r[i + 1])) by {
            if i < rest.len() - 1 {
                assert(r[i] == rest[i] && r[i + 1] == rest[i + 1]);
            }
        }
    }
}

/// Sanitizing a name that holds no token leaves it as it is.
pub proof fn lemma_clean_is_fixed(s: Seq<char>)
    requires
        is_clean(s),
    ensures
        sanitized(s) == s,
    decreases s.len(),
{
    if s.len() > 0 {
        let p = s.drop_last();
        assert(is_clean(p)) by {
            assert forall|i: int| 0 <= i < p.len() - 1 implies !(#[trigger] p[i] == '$'
                && is_slot_digit(p[i + 1])) by {
                assert(p[i] == s[i] && p[i + 1] == s[i + 1]);
            }
        }
        lemma_clean_is_fixed(p);
        assert(!is_marker(s[s.len() - 1]));
        if p.len() > 0 {
            assert(s[p.len() - 1] == p.last());
        }
        assert(p.push(s.last()) =~= s);
    }
}

/// Sanitizing is idempotent.
pub proof fn lemma_sanitize_idempotent(s: Seq<char>)
    ensures
        sanitized(sanitized(s)) == sanitized(s),
{
    lemma_sanitized_is_clean(s);
    lemma_clean_is_fixed(sanitized(s));
}

/// Decoding follows the priority order: a name with both `~` and `#` is
/// Locked, and one with both `^` and `=` (and no `~`, which outranks both)
/// is ParentLocked.
pub proof fn lemma_decode_priority(name: Seq<char>)
    ensures
        name.contains('~') && name.contains('#') ==> kind_of(name) == RadioCheck::Locked,
        !name.contains('~') && name.contains('^') && name.contains('=') ==> kind_of(name)
            == RadioCheck::ParentLocked,
{
}

impl RadioCheck {
    /// The kind called `name` ("Radio", "Locked", ...).
    pub fn new(name: &str) -> (r: Result<RadioCheck, UnknownKind>)
        ensures
            r matches Ok(k) ==> kind_named(name@) == Some(k),
            r matches Err(e) ==> kind_named(name@) is None && e.name@ == name@,
    {
        let n = String::from_str(name);
        if n == String::from_str("Radio") {
            Ok(RadioCheck::Radio)
        } else if n == String::from_str("RadioChecked") {
            Ok(RadioCheck::RadioChecked)
        } else if n == String::from_str("RadioFolder") {
            Ok(RadioCheck::RadioFolder)
        } else if n == String::from_str("Checked") {
            Ok(RadioCheck::Checked)
        } else if n == String::from_str("Unchecked") {
            Ok(RadioCheck::Unchecked)
        } else if n == String::from_str("Locked") {
            Ok(RadioCheck::Locked)
        } else if n == String::from_str("ParentLocked") {
            Ok(RadioCheck::ParentLocked)
        } else {
            Err(UnknownKind { name: n })
        }
    }

    /// Decodes the selection kind from the sentinels of a raw name.
    pub fn determine(s: &str) -> (r: RadioCheck)
        ensures
            r == kind_of(s@),
    {
        let cs = chars_of(s);
        let mut tilde = false;
        let mut caret = false;
        let mut equals = false;
        let mut radio = false;
        let mut bang = false;
        let mut i: usize = 0;
        while i < cs.len()
            invariant
                i <= cs@.len(),
                cs@ == s@,
                tilde == cs@.take(i as int).contains('~'),
                caret == cs@.take(i as int).contains('^'),
                equals == cs@.take(i as int).contains('='),
                radio == (cs@.take(i as int).contains('-') || cs@.take(i as int).contains('+')),
                bang == cs@.take(i as int).contains('!'),
            decreases cs@.len() - i,
        {
            let c = cs[i];
            let ghost before = cs@.take(i as int);
            assert(cs@.take(i as int + 1) == before.push(c));
            assert forall|x: char| #[trigger] before.push(c).contains(x) == (before.contains(x)
                || x == c) by {
                if before.push(c).contains(x) && x != c {
                    let j = choose|j: int| 0 <= j < before.len() + 1 && before.push(c)[j] == x;
                    assert(before[j] == x);
                }
                if before.contains(x) {
                    let j = choose|j: int| 0 <= j < before.len() && before[j] == x;
                    assert(before.push(c)[j] == x);
                }
                if x == c {
                    assert(before.push(c)[before.len() as int] == x);
                }
            }
            if c == '~' {
                tilde = true;
            } else if c == '^' {
                caret = true;
            } else if c == '=' {
                equals = true;
            } else if c == '-' || c == '+' {
                radio = true;
            } else if c == '!' {
                bang = true;
            }
            i = i + 1;
        }
        assert(cs@.take(cs@.len() as int) == cs@);
        let ends_hash = cs.len() > 0 && cs[cs.len() - 1] == '#';
        if tilde {
            RadioCheck::Locked
        } else if caret {
            RadioCheck::ParentLocked
        } else if equals {
            RadioCheck::RadioChecked
        } else if radio {
            RadioCheck::Radio
        } else if ends_hash {
            RadioCheck::RadioFolder
        } else if bang {
            RadioCheck::Unchecked
        } else {
            RadioCheck::Checked
        }
    }
}

/// The display name of a raw folder or file name: every sentinel token
/// removed (see the module documentation).
pub fn prettify_folder_name(s: &str) -> (r: String)
    ensures
        r@ == sanitized(s@),
        is_clean(r@),
{
    let cs = chars_of(s);
    let mut out: Vec<char> = Vec::new();
    let mut i: usize = 0;
    while i < cs.len()
        invariant
            i <= cs@.len(),
            cs@ == s@,
            out@ == sanitized(cs@.take(i as int)),
        decreases cs@.len() - i,
    {
        let c = cs[i];
        assert(cs@.take(i as int + 1).drop_last() == cs@.take(i as int));
        if c == '^' || c == '+' || c == '=' || c == '#' || c == '!' || c == '~' || c == '*' {
        } else if '1' <= c && c <= '9' && out.len() > 0 && out[out.len() - 1] == '$' {
            out.pop();
        } else {
            out.push(c);
        }
        i = i + 1;
    }
    assert(cs@.take(cs@.len() as int) == cs@);
    proof {
        lemma_sanitized_is_clean(s@);
    }
    string_of(&out)
}

} // verus!
