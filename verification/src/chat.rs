//! The chat service: the list of words it masks, the masking itself, and the
//! names and fixed-size buffers of the messages it broadcasts.
use vstd::prelude::*;
use vstd::string::{StrSliceExecFns, StringExecFns};
use std::collections::HashMap;
use crate::broker_protocol::{topic_from_bytes, topic_from_slice, utf8_lossy, utf8_lossy_chars};
use crate::handoff::name_state_buffer;
use crate::spatial::{decimal, decimal_digits};

verus! {

#[verifier::external_type_specification]
#[verifier::external_body]
pub struct ExAhoCorasick(aho_corasick::AhoCorasick);

/// Where the first `'\n'` of `s` stands, or -1.
pub open spec fn newline_index(s: Seq<char>) -> int
    decreases s.len(),
{
    if s.len() == 0 {
        -1
    } else if s[0] == '\n' {
        0
    } else {
        let k = newline_index(s.drop_first());
        if k < 0 {
            -1
        } else {
            k + 1
        }
    }
}

/// Where the first newline stands lies inside the text.
pub proof fn lemma_newline_index(s: Seq<char>)
    ensures
        -1 <= newline_index(s) < s.len(),
        newline_index(s) >= 0 ==> s[newline_index(s)] == '\n',
    decreases s.len(),
{
    if s.len() > 0 && s[0] != '\n' {
        lemma_newline_index(s.drop_first());
    }
}

/// The lines of a text, as `str::lines` documents them: split after each
/// `'\n'`, which is dropped with a `'\r'` just before it; the last line
/// needs no `'\n'`, and an empty text has no line.
pub open spec fn text_lines(s: Seq<char>) -> Seq<Seq<char>>
    decreases s.len(),
{
    if s.len() == 0 {
        Seq::empty()
    } else {
        let k = newline_index(s);
        if k < 0 {
            seq![s]
        } else {
            proof {
                lemma_newline_index(s);
            }
            let line = s.take(k);
            let line = if line.len() > 0 && line.last() == '\r' {
                line.drop_last()
            } else {
                line
            };
            seq![line] + text_lines(s.skip(k + 1))
        }
    }
}

/// Whether `c` has the Unicode property White_Space, the whitespace of `str::trim`.
pub open spec fn is_white_space(c: char) -> bool {
    let n = c as u32;
    ||| 0x9 <= n <= 0xD
    ||| n == 0x20
    ||| n == 0x85
    ||| n == 0xA0
    ||| n == 0x1680
    ||| 0x2000 <= n <= 0x200A
    ||| n == 0x2028
    ||| n == 0x2029
    ||| n == 0x202F
    ||| n == 0x205F
    ||| n == 0x3000
}

/// `s` without its leading whitespace.
pub open spec fn trim_start_ws(s: Seq<char>) -> Seq<char>
    decreases s.len(),
{
    if s.len() > 0 && is_white_space(s[0]) {
        trim_start_ws(s.drop_first())
    } else {
        s
    }
}

/// `s` without its trailing whitespace.
pub open spec fn trim_end_ws(s: Seq<char>) -> Seq<char>
    decreases s.len(),
{
    if s.len() > 0 && is_white_space(s.last()) {
        trim_end_ws(s.drop_last())
    } else {
        s
    }
}

/// A text without its leading and trailing whitespace, as `str::trim` documents it.
pub open spec fn trimmed(s: Seq<char>) -> Seq<char> {
    trim_end_ws(trim_start_ws(s))
}

/// A text in lower case, as `str::to_lowercase` gives it.
pub uninterp spec fn lowercased(s: Seq<char>) -> Seq<char>;

/// `str::lines`, each line made a `String`. Stated: the lines are those
/// that the documentation of `str::lines` describes.
#[verifier::external_body]
fn lines_of(s: &str) -> (v: Vec<String>)
    ensures
        v@.map_values(|x: String| x@) == text_lines(s@),
{
    s.lines().map(|l| l.to_string()).collect()
}

/// `str::trim`, made a `String`. Stated: the text without leading and
/// trailing White_Space characters.
#[verifier::external_body]
fn trim_text(s: &str) -> (t: String)
    ensures
        t@ == trimmed(s@),
{
    s.trim().to_string()
}

/// `str::to_lowercase`. Stated: the result is the named result of the text.
#[verifier::external_body]
fn lowercase_text(s: &str) -> (t: String)
    ensures
        t@ == lowercased(s@),
{
    s.to_lowercase()
}

/// The words to mask, from the text of a word list: each line trimmed and
/// put in lower case, empty lines left out.
pub open spec fn bad_word_list(content: Seq<char>) -> Seq<Seq<char>> {
    text_lines(content).map_values(|l: Seq<char>| lowercased(trimmed(l))).filter(|w: Seq<char>| w.len() > 0)
}

/// The words of a word list (see [`bad_word_list`]).
pub fn bad_words(content: &str) -> (words: Vec<String>)
    ensures
        words@.map_values(|w: String| w@) == bad_word_list(content@),
{
    let lines = lines_of(content);
    let ghost ls = lines@.map_values(|x: String| x@);
    let ghost cleaned = ls.map_values(|l: Seq<char>| lowercased(trimmed(l)));
    let mut words: Vec<String> = Vec::new();
    let mut i: usize = 0;
    while i < lines.len()
        invariant
            i <= lines@.len(),
            ls == lines@.map_values(|x: String| x@),
            cleaned == ls.map_values(|l: Seq<char>| lowercased(trimmed(l))),
            words@.map_values(|w: String| w@) == cleaned.take(i as int).filter(|w: Seq<char>| w.len() > 0),
        decreases lines@.len() - i,
    {
        let t = trim_text(lines[i].as_str());
        let w = lowercase_text(t.as_str());
        proof {
            reveal_with_fuel(Seq::filter, 1);
            assert(cleaned.take(i as int + 1).drop_last() =~= cleaned.take(i as int));
            assert(cleaned.take(i as int + 1).last() == w@);
        }
        let ghost before = words@;
        if w.unicode_len() > 0 {
            words.push(w);
            assert(words@.map_values(|w: String| w@) =~= before.map_values(|w: String| w@).push(cleaned[i as int]));
        }
        i = i + 1;
    }
    assert(cleaned.take(cleaned.len() as int) =~= cleaned);
    words
}

/// Whether `AhoCorasick::builder().ascii_case_insensitive(true).build` succeeds
/// on these words (it fails only when they exceed the crate's limits).
pub uninterp spec fn automaton_builds(words: Seq<Seq<char>>) -> bool;

/// The words an automaton was built from, in order.
pub uninterp spec fn automaton_words(automaton: aho_corasick::AhoCorasick) -> Seq<Seq<char>>;

/// What `AhoCorasick::replace_all_with` makes of `text` with an automaton
/// built from `words` in any ASCII case and standard match semantics, each
/// match replaced by as many stars as it has characters.
pub uninterp spec fn masked(words: Seq<Seq<char>>, text: Seq<char>) -> Seq<char>;

/// `AhoCorasick::builder().ascii_case_insensitive(true).build(words)`, the
/// automaton that finds the words in any ASCII case. Stated: whether it is
/// built is the named result of the words, and a built automaton holds those
/// words. Left unsaid: the crate's limits, which are not part of its API.
#[verifier::external_body]
fn build_automaton(words: &Vec<String>) -> (r: Option<aho_corasick::AhoCorasick>)
    ensures
        (r is Some) == automaton_builds(words@.map_values(|w: String| w@)),
        r matches Some(a) ==> automaton_words(a) == words@.map_values(|w: String| w@),
{
    aho_corasick::AhoCorasick::builder().ascii_case_insensitive(true).build(words).ok()
}

/// Appends one `*` to `dst` for each character of `matched`; always asks to go on.
pub fn push_stars(matched: &str, dst: &mut String) -> (go_on: bool)
    ensures
        final(dst)@ == old(dst)@ + Seq::new(matched@.len(), |i: int| '*'),
        go_on,
{
    let n = matched.unicode_len();
    let star = "*";
    proof {
        reveal_strlit("*");
    }
    let mut i: usize = 0;
    while i < n
        invariant
            i <= n,
            n == matched@.len(),
            star@ == seq!['*'],
            dst@ == old(dst)@ + Seq::new(i as nat, |k: int| '*'),
        decreases n - i,
    {
        dst.append(star);
        assert(dst@ =~= old(dst)@ + Seq::new((i + 1) as nat, |k: int| '*'));
        i = i + 1;
    }
    true
}

/// Every character of `masked` is the one of `text` at the same place, or a star.
pub open spec fn masks(text: Seq<char>, masked: Seq<char>) -> bool {
    &&& masked.len() == text.len()
    &&& forall|i: int| 0 <= i < text.len() ==> masked[i] == text[i] || masked[i] == '*'
}

/// A character in lower case when it is an ASCII capital letter, as a number.
pub open spec fn ascii_folded(c: char) -> int {
    if 'A' <= c <= 'Z' {
        c as int + 32
    } else {
        c as int
    }
}

/// `w` occurs in `text` at position `i`, ASCII letters compared in any case.
pub open spec fn occurs_at(w: Seq<char>, text: Seq<char>, i: int) -> bool {
    &&& 0 <= i
    &&& i + w.len() <= text.len()
    &&& forall|j: int| 0 <= j < w.len() ==> ascii_folded(#[trigger] w[j]) == ascii_folded(text[i + j])
}

/// Some non-empty word of the list occurs in `text`.
pub open spec fn has_listed_word(words: Seq<Seq<char>>, text: Seq<char>) -> bool {
    exists|k: int, i: int| 0 <= k < words.len() && words[k].len() > 0 && #[trigger] occurs_at(words[k], text, i)
}

/// `AhoCorasick::replace_all_with`, replacing each match with as many stars
/// as it has characters ([`push_stars`]). The crate copies the text between
/// matches and, for each match, what the closure writes. Stated: the result
/// is the named result of the automaton's words and the text; it masks the
/// text; and a text in which no word occurs comes back unchanged (an empty
/// word only matches empty spans, which get no star).
#[verifier::external_body]
fn mask_matches(automaton: &aho_corasick::AhoCorasick, text: &str) -> (r: String)
    ensures
        r@ == masked(automaton_words(*automaton), text@),
        masks(text@, r@),
        !has_listed_word(automaton_words(*automaton), text@) ==> r@ == text@,
{
    let mut result = String::new();
    automaton.replace_all_with(text, &mut result, |_m, matched, dst| push_stars(matched, dst));
    result
}

/// Masks the words of a list in chat messages.
pub struct Moderator {
    automaton: aho_corasick::AhoCorasick,
    words: Ghost<Seq<Seq<char>>>,
}

impl Moderator {
    /// The automaton holds the words.
    #[verifier::type_invariant]
    spec fn holds_words(self) -> bool {
        automaton_words(self.automaton) == self.words@
    }

    /// The words the moderator was built for, in order.
    pub closed spec fn words(self) -> Seq<Seq<char>> {
        self.words@
    }

    /// A moderator for the words `bad_words`, found in any ASCII case;
    /// `None` when the automaton cannot be built.
    pub fn new(bad_words: &Vec<String>) -> (r: Option<Moderator>)
        ensures
            (r is Some) == automaton_builds(bad_words@.map_values(|w: String| w@)),
            r matches Some(m) ==> m.words() == bad_words@.map_values(|w: String| w@),
    {
        match build_automaton(bad_words) {
            Some(automaton) => Some(
                Moderator { automaton, words: Ghost(bad_words@.map_values(|w: String| w@)) },
            ),
            None => None,
        }
    }

    /// The message with each occurrence of a listed word replaced by as many
    /// stars as it has characters.
    pub fn moderate_message(&self, message: &str) -> (r: String)
        ensures
            r@ == masked(self.words(), message@),
            masks(message@, r@),
            !has_listed_word(self.words(), message@) ==> r@ == message@,
    {
        proof {
            use_type_invariant(self);
        }
        mask_matches(&self.automaton, message)
    }
}

/// The name given to a client that never joined the chat: "Player" and its identifier.
pub open spec fn default_player_name(client_id: u32) -> Seq<u8> {
    seq![80u8, 108u8, 97u8, 121u8, 101u8, 114u8] + decimal_digits(client_id as nat)
}

/// The state of the chat service: the name of each client that joined.
pub struct ChatService {
    pub usernames: HashMap<u32, String>,
    pub moderator: Moderator,
}

impl ChatService {
    /// A chat service that knows no client and masks with `moderator`.
    pub fn new(moderator: Moderator) -> (s: Self)
        ensures
            s.usernames@ == Map::<u32, String>::empty(),
            s.moderator == moderator,
    {
        ChatService { usernames: HashMap::new(), moderator }
    }

    /// A client joined the chat under the name held in `username` (all 32
    /// bytes, decoded as UTF-8 with replacement characters).
    pub fn on_chat_join(&mut self, client_id: u32, username: &[u8; 32])
        ensures
            final(self).usernames@.dom() == old(self).usernames@.dom().insert(client_id),
            final(self).usernames@[client_id]@ == utf8_lossy_chars(username@),
            forall|c: u32| c != client_id && old(self).usernames@.contains_key(c) ==> final(self).usernames@[c]
                == old(self).usernames@[c],
    {
        broadcast use vstd::std_specs::hash::group_hash_axioms;
        let name = utf8_lossy(username.as_slice());
        self.usernames.insert(client_id, name);
    }

    /// The broadcast for a chat message of `client_id`: the sender's name in
    /// 32 bytes (its joined name, or "Player" and its identifier), and the
    /// message, decoded as UTF-8 with replacement characters and moderated,
    /// in 64 bytes; both cut or padded with zeros.
    pub fn on_client_chat_message(&self, client_id: u32, msg: &[u8]) -> (r: ([u8; 32], [u8; 64]))
        ensures
            r.0@ == topic_from_bytes(
                if self.usernames@.contains_key(client_id) {
                    vstd::utf8::encode_utf8(self.usernames@[client_id]@)
                } else {
                    default_player_name(client_id)
                },
            ),
            forall|i: int|
                0 <= i < 64 ==> r.1@[i] == if i < vstd::utf8::encode_utf8(
                    masked(self.moderator.words(), utf8_lossy_chars(msg@)),
                ).len() {
                    vstd::utf8::encode_utf8(masked(self.moderator.words(), utf8_lossy_chars(msg@)))[i]
                } else {
                    0u8
                },
    {
        broadcast use vstd::std_specs::hash::group_hash_axioms;
        let text = utf8_lossy(msg);
        let moderated = self.moderator.moderate_message(text.as_str());
        let body = name_state_buffer(moderated.as_str().as_bytes());
        let name = match self.usernames.get(&client_id) {
            Some(n) => topic_from_slice(n.as_str().as_bytes()),
            None => {
                let mut v: Vec<u8> = Vec::new();
                v.push(80u8);
                v.push(108u8);
                v.push(97u8);
                v.push(121u8);
                v.push(101u8);
                v.push(114u8);
                let digits = decimal(client_id);
                let mut i: usize = 0;
                while i < digits.len()
                    invariant
                        i <= digits@.len(),
                        v@ == seq![80u8, 108u8, 97u8, 121u8, 101u8, 114u8] + digits@.take(i as int),
                    decreases digits@.len() - i,
                {
                    v.push(digits[i]);
                    assert(digits@.take(i as int + 1) =~= digits@.take(i as int).push(digits@[i as int]));
                    i = i + 1;
                }
                assert(digits@.take(digits@.len() as int) =~= digits@);
                topic_from_slice(v.as_slice())
            },
        };
        (name, body)
    }
}

} // verus!
