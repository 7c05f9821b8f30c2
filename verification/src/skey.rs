//! The matchmaking sort key: a random uniqueness prefix joined to a
//! caller-supplied run identifier by the first `_` of the string.

use vstd::prelude::*;
use vstd::string::*;

verus! {

/// In-memory view of a sort key `<random_component>_<run_id>`.
///
/// `random_component` never contains `_`; `run_id` may. The textual form
/// splits on the first `_` only, so the two fields survive a round trip.
#[derive(Debug, PartialEq)]
pub struct MatchmakingSkey {
    pub random_component: String,
    pub run_id: String,
}

impl Clone for MatchmakingSkey {
    fn clone(&self) -> (r: Self)
        ensures
            r == *self,
    {
        MatchmakingSkey {
            random_component: self.random_component.clone(),
            run_id: self.run_id.clone(),
        }
    }
}

/// Length of the random uniqueness prefix of every generated sort key.
pub const RANDOM_COMPONENT_LEN: usize = 16;

/// True of the characters a generated `random_component` is drawn from.
pub open spec fn is_lowercase_letter(c: char) -> bool {
    'a' <= c <= 'z'
}

/// True when `s` contains no `_`, the condition under which a formatted
/// sort key parses back into its original components.
pub open spec fn underscore_free(s: Seq<char>) -> bool {
    forall|i: int| 0 <= i < s.len() ==> s[i] != '_'
}

/// True when some position of `s` holds `_`.
pub open spec fn has_underscore(s: Seq<char>) -> bool {
    exists|i: int| 0 <= i < s.len() && s[i] == '_'
}

/// True when `i` is the position of the first `_` of `s`.
pub open spec fn is_first_underscore(s: Seq<char>, i: int) -> bool {
    &&& 0 <= i < s.len()
    &&& s[i] == '_'
    &&& forall|j: int| 0 <= j < i ==> s[j] != '_'
}

/// The position of the first `_` of `s`; meaningful only when
/// `has_underscore(s)` (see `lemma_first_underscore`).
pub open spec fn first_underscore(s: Seq<char>) -> int {
    choose|i: int| is_first_underscore(s, i)
}

/// The message of a failed sort-key parse: it names the offending input.
pub open spec fn parse_error_text(s: Seq<char>) -> Seq<char> {
    "failed to detect MatchmakingSkey from '"@ + s + "'"@
}

/// The components a sort-key string parses into: the text before the
/// first `_` and everything after it, or nothing when `_` is absent.
pub open spec fn parsed_skey(s: Seq<char>) -> Option<(Seq<char>, Seq<char>)> {
    if has_underscore(s) {
        Some((s.take(first_underscore(s)), s.skip(first_underscore(s) + 1)))
    } else {
        None
    }
}

proof fn lemma_exists_first_underscore(s: Seq<char>, k: int)
    requires
        0 <= k < s.len(),
        s[k] == '_',
    ensures
        exists|i: int| is_first_underscore(s, i),
    decreases k,
{
    if forall|j: int| 0 <= j < k ==> s[j] != '_' {
        assert(is_first_underscore(s, k));
    } else {
        let j = choose|j: int| 0 <= j < k && s[j] == '_';
        lemma_exists_first_underscore(s, j);
    }
}

/// A string that holds an `_` has a unique first one, and
/// `first_underscore` names it.
pub proof fn lemma_first_underscore(s: Seq<char>)
    requires
        has_underscore(s),
    ensures
        is_first_underscore(s, first_underscore(s)),
{
    let k = choose|i: int| 0 <= i < s.len() && s[i] == '_';
    lemma_exists_first_underscore(s, k);
}

impl MatchmakingSkey {
    /// The textual form of this sort key.
    pub open spec fn formatted(&self) -> Seq<char> {
        self.random_component@ + seq!['_'] + self.run_id@
    }

    /// True of every sort key the library generates: a 16-character
    /// lowercase random component, which in particular is `_`-free.
    pub open spec fn generated(&self) -> bool {
        &&& self.random_component@.len() == RANDOM_COMPONENT_LEN
        &&& forall|i: int|
            0 <= i < self.random_component@.len() ==> is_lowercase_letter(
                #[trigger] self.random_component@[i],
            )
    }

    /// Builds a fresh sort key for `run_id` with a random 16-character
    /// lowercase uniqueness prefix.
    pub fn new(run_id: String) -> (k: Self)
        ensures
            k.run_id == run_id,
            k.generated(),
    {
        MatchmakingSkey { random_component: get_random_string(RANDOM_COMPONENT_LEN), run_id }
    }

    /// Splits a sort-key string on its first `_`: the left part is the
    /// random component, the right part the run identifier (which may
    /// itself contain `_`). A string without `_` is malformed.
    pub fn parse(s: &str) -> (r: Result<MatchmakingSkey, String>)
        ensures
            r is Ok <==> has_underscore(s@),
            (r matches Ok(k) ==> parsed_skey(s@) == Some((k.random_component@, k.run_id@))),
            (r matches Err(m) ==> m@ == parse_error_text(s@)),
    {
        let len = s.unicode_len();
        let mut i: usize = 0;
        while i < len
            invariant
                len == s@.len(),
                i <= len,
                forall|j: int| 0 <= j < i ==> s@[j] != '_',
            decreases len - i,
        {
            if s.get_char(i) == '_' {
                let random_component = s.substring_char(0, i).to_owned();
                let run_id = s.substring_char(i + 1, len).to_owned();
                proof {
                    assert(is_first_underscore(s@, i as int));
                    lemma_first_underscore(s@);
                    assert(first_underscore(s@) == i as int);
                    assert(s@.take(i as int) =~= s@.subrange(0, i as int));
                    assert(s@.skip(i as int + 1) =~= s@.subrange(i as int + 1, len as int));
                }
                return Ok(MatchmakingSkey { random_component, run_id });
            }
            i += 1;
        }
        let mut msg = String::from_str("failed to detect MatchmakingSkey from '");
        msg.append(s);
        msg.append("'");
        assert(msg@ =~= parse_error_text(s@));
        Err(msg)
    }

    /// Renders the sort key as `<random_component>_<run_id>`.
    pub fn format(&self) -> (s: String)
        ensures
            s@ == self.formatted(),
    {
        proof {
            reveal_strlit("_");
            assert("_"@ =~= seq!['_']);
        }
        let mut s = self.random_component.clone();
        s.append("_");
        s.append(self.run_id.as_str());
        assert(s@ =~= self.formatted());
        s
    }
}

/// Relies on `fastrand::char`: returns a character drawn from the given
/// range, here `'a'..='z'`.
#[verifier::external_body]
fn random_lowercase_letter() -> (c: char)
    ensures
        is_lowercase_letter(c),
{
    fastrand::char('a'..='z')
}

/// A string of `num` randomly drawn lowercase ASCII letters.
pub fn get_random_string(num: usize) -> (s: String)
    ensures
        s@.len() == num,
        forall|i: int| 0 <= i < s@.len() ==> is_lowercase_letter(#[trigger] s@[i]),
{
    let mut out = String::new();
    let mut n: usize = 0;
    while n < num
        invariant
            n <= num,
            out@.len() == n,
            forall|i: int| 0 <= i < out@.len() ==> is_lowercase_letter(#[trigger] out@[i]),
        decreases num - n,
    {
        let c = random_lowercase_letter();
        out.push(c);
        n += 1;
    }
    out
}

/// A lowercase random component cannot contain the separator.
pub proof fn lemma_lowercase_is_underscore_free(s: Seq<char>)
    requires
        forall|i: int| 0 <= i < s.len() ==> is_lowercase_letter(#[trigger] s[i]),
    ensures
        underscore_free(s),
{
}

/// A string that parses into a sort key's components is exactly that
/// key's formatted text: parsing loses nothing.
pub proof fn lemma_parse_format_inverse(s: Seq<char>, k: MatchmakingSkey)
    requires
        parsed_skey(s) == Some((k.random_component@, k.run_id@)),
    ensures
        k.formatted() == s,
{
    assert(has_underscore(s));
    lemma_first_underscore(s);
    assert(k.formatted() =~= s);
}

/// Round trip: a formatted sort key whose random component is `_`-free
/// parses back into exactly its two components.
pub proof fn lemma_format_parse_round_trip(k: MatchmakingSkey)
    requires
        underscore_free(k.random_component@),
    ensures
        parsed_skey(k.formatted()) == Some((k.random_component@, k.run_id@)),
{
    let s = k.formatted();
    let n = k.random_component@.len() as int;
    assert(s[n] == '_');
    assert(is_first_underscore(s, n));
    lemma_first_underscore(s);
    assert(first_underscore(s) == n);
    assert(s.take(n) =~= k.random_component@);
    assert(s.skip(n + 1) =~= k.run_id@);
}

} // verus!
