use vstd::prelude::*;

use crate::text::str_eq;
use crate::text::trim_spaces;
use crate::text::trim_spec;
use crate::text::str_starts_with;
use crate::text::str_range_has_char;

verus! {

/// The annotation attached to one recorded move sequence.
pub struct MoveNote {
    pub note: String,
}

/// What can go wrong while bringing an opening study into memory.
pub enum OpeningError {
    /// The file name did not end in the required extension; holds the
    /// extension that was found, or `none`.
    InvalidExtension(String),
    /// The file could not be read; holds the reader's message.
    FileReadError(String),
    /// The file's contents were not a well-formed study; holds the
    /// parser's message.
    ParseError(String),
    /// Two entries carried the same sequence key; holds that key.
    DuplicateKey(String),
}

/// A complete opening study: a named, annotated set of move sequences,
/// each keyed by its canonical `-`-joined encoding.
pub struct Opening {
    /// Author of the opening study.
    pub author: String,
    /// Seconds since the epoch when the study was last modified.
    pub date_modified: u64,
    /// Name of the opening.
    pub name: String,
    /// Description of the opening study.
    pub description: String,
    /// The recorded sequences: canonical key paired with its note.
    /// Keys are unique once `wf` holds.
    pub moves: Vec<(String, MoveNote)>,
}

impl Opening {
    /// The stored keys, in storage order.
    pub open spec fn keys(self) -> Seq<Seq<char>> {
        self.moves@.map_values(|e: (String, MoveNote)| e.0@)
    }

    /// Well-formed: no two entries share a key.
    pub open spec fn wf(self) -> bool {
        forall|i: int, j: int|
            0 <= i < j < self.moves@.len() ==> (#[trigger] self.moves@[i]).0@ != (
            #[trigger] self.moves@[j]).0@
    }

    /// Whether some entry carries this key.
    pub open spec fn has_key(self, k: Seq<char>) -> bool {
        exists|i: int| 0 <= i < self.moves@.len() && (#[trigger] self.moves@[i]).0@ == k
    }

    /// The position of the entry carrying this key.
    pub open spec fn entry_index(self, k: Seq<char>) -> int {
        choose|i: int| 0 <= i < self.moves@.len() && (#[trigger] self.moves@[i]).0@ == k
    }

    /// The note stored under this key.
    pub open spec fn note_at(self, k: Seq<char>) -> Seq<char> {
        self.moves@[self.entry_index(k)].1.note@
    }

    /// The study seen as a mapping from key to note.
    pub open spec fn as_map(self) -> Map<Seq<char>, Seq<char>> {
        Map::new(|k: Seq<char>| self.has_key(k), |k: Seq<char>| self.note_at(k))
    }

    /// Exact lookup of the note recorded for a key; `None` for a key
    /// with no annotation, including the empty key.
    pub fn lookup(&self, key: &str) -> (r: Option<&MoveNote>)
        requires
            self.wf(),
        ensures
            r is Some <==> self.has_key(key@),
            r matches Some(n) ==> n.note@ == self.as_map()[key@],
    {
        let mut i: usize = 0;
        while i < self.moves.len()
            invariant
                self.wf(),
                i <= self.moves@.len(),
                forall|j: int| 0 <= j < i ==> (#[trigger] self.moves@[j]).0@ != key@,
            decreases self.moves@.len() - i,
        {
            if str_eq(self.moves[i].0.as_str(), key) {
                proof {
                    assert(self.has_key(key@));
                    let e = self.entry_index(key@);
                    if e != i {
                        assert(self.moves@[e].0@ != self.moves@[i as int].0@);
                    }
                }
                return Some(&self.moves[i].1);
            }
            i += 1;
        }
        None
    }

    /// Every stored key, cloned, in storage order; the order is
    /// incidental and carries no meaning.
    pub fn list_keys(&self) -> (r: Vec<String>)
        ensures
            r@.len() == self.keys().len(),
            forall|i: int| 0 <= i < r@.len() ==> (#[trigger] r@[i])@ == self.keys()[i],
    {
        let mut r: Vec<String> = Vec::new();
        let mut i: usize = 0;
        while i < self.moves.len()
            invariant
                i <= self.moves@.len(),
                r@.len() == i,
                forall|j: int| 0 <= j < i ==> (#[trigger] r@[j])@ == self.keys()[j],
            decreases self.moves@.len() - i,
        {
            r.push(self.moves[i].0.clone());
            i += 1;
        }
        r
    }

    /// Builds a study from its parts, enforcing key uniqueness: the
    /// first entry whose key repeats an earlier one is reported as a
    /// `DuplicateKey` error.
    pub fn load(
        name: String,
        author: String,
        description: String,
        date_modified: u64,
        entries: Vec<(String, MoveNote)>,
    ) -> (r: Result<Opening, OpeningError>)
        ensures
            r is Ok <==> (forall|i: int, j: int|
                0 <= i < j < entries@.len() ==> (#[trigger] entries@[i]).0@ != (
                #[trigger] entries@[j]).0@),
            r matches Ok(o) ==> {
                &&& o.wf()
                &&& o.name@ == name@
                &&& o.author@ == author@
                &&& o.description@ == description@
                &&& o.date_modified == date_modified
                &&& o.moves@ == entries@
            },
            r matches Err(e) ==> (e matches OpeningError::DuplicateKey(k) && (exists|i: int, j: int|
                0 <= i < j < entries@.len() && (#[trigger] entries@[i]).0@ == (
                #[trigger] entries@[j]).0@ && k@ == entries@[j].0@)),
    {
        let mut i: usize = 1;
        while i < entries.len()
            invariant
                1 <= i,
                i <= entries@.len() || entries@.len() == 0,
                forall|p: int, q: int|
                    0 <= p < q < i && q < entries@.len() ==> (#[trigger] entries@[p]).0@ != (
                    #[trigger] entries@[q]).0@,
            decreases entries@.len() - i,
        {
            let mut j: usize = 0;
            while j < i
                invariant
                    j <= i < entries@.len(),
                    forall|p: int| 0 <= p < j ==> (#[trigger] entries@[p]).0@ != entries@[
                    i as int].0@,
                decreases i - j,
            {
                if str_eq(entries[j].0.as_str(), entries[i].0.as_str()) {
                    return Err(OpeningError::DuplicateKey(entries[i].0.clone()));
                }
                j += 1;
            }
            i += 1;
        }
        Ok(
            Opening {
                author,
                date_modified,
                name,
                description,
                moves: entries,
            },
        )
    }

    /// Relies on chrono::Utc::now and DateTime::timestamp for the
    /// current time in seconds since the epoch; nothing is assumed of
    /// the value.
    #[verifier::external_body]
    fn now_timestamp() -> u64 {
        chrono::Utc::now().timestamp() as u64
    }

    /// A fresh, empty study stamped with the present moment.
    pub fn new(name: String, author: String, description: String) -> (o: Opening)
        ensures
            o.name@ == name@,
            o.author@ == author@,
            o.description@ == description@,
            o.moves@ == Seq::<(String, MoveNote)>::empty(),
            o.wf(),
    {
        let o = Opening {
            author,
            date_modified: Self::now_timestamp(),
            name,
            description,
            moves: Vec::new(),
        };
        proof {
            assert(o.moves@ =~= Seq::<(String, MoveNote)>::empty());
        }
        o
    }
}

/// The key reached from `base` by playing one more token: the token
/// itself from the starting position, otherwise `base`, a separator,
/// and the token.
pub open spec fn child_key(base: Seq<char>, m: Seq<char>) -> Seq<char> {
    if base.len() == 0 {
        m
    } else {
        base + seq!['-'] + m
    }
}

/// Whether `key` is a token-aligned, exactly-one-ply continuation of
/// `base`: `base`, then a separator, then one separator-free token.
/// A key two or more plies deeper never qualifies.
pub open spec fn is_child_key_of(key: Seq<char>, base: Seq<char>) -> bool {
    if base.len() == 0 {
        key.len() > 0 && !key.contains('-')
    } else {
        &&& key.len() > base.len()
        &&& key.take(base.len() as int) == base
        &&& key[base.len() as int] == '-'
        &&& !key.skip(base.len() as int + 1).contains('-')
    }
}

/// The token a one-ply continuation adds after `base`.
pub open spec fn child_token_of(key: Seq<char>, base: Seq<char>) -> Seq<char> {
    if base.len() == 0 {
        key
    } else {
        key.skip(base.len() as int + 1)
    }
}

/// A key is a one-ply continuation of `base` exactly when it is `base`
/// extended by its own separator-free, strictness-respecting token.
pub proof fn lemma_child_key_token(key: Seq<char>, base: Seq<char>)
    ensures
        is_child_key_of(key, base) <==> {
            let m = child_token_of(key, base);
            &&& !m.contains('-')
            &&& (base.len() == 0 ==> m.len() > 0)
            &&& key == child_key(base, m)
        },
{
    let m = child_token_of(key, base);
    if base.len() == 0 {
    } else {
        let bl = base.len() as int;
        if is_child_key_of(key, base) {
            assert(key =~= key.take(bl) + seq![key[bl]] + key.skip(bl + 1));
            assert(key == child_key(base, m));
        }
        if !m.contains('-') && key == child_key(base, m) {
            let built = base + seq!['-'] + m;
            assert(built.take(bl) =~= base);
            assert(built[bl] == '-');
            assert(built.skip(bl + 1) =~= m);
        }
    }
}

/// If `key` continues `base` by one ply, extracts the added token;
/// `None` where `key` diverges, equals `base`, or runs deeper than a
/// single ply.
pub fn next_token_after(key: &str, base: &str) -> (r: Option<String>)
    ensures
        r is Some <==> is_child_key_of(key@, base@),
        r matches Some(m) ==> m@ == child_token_of(key@, base@),
{
    let kl = key.unicode_len();
    let bl = base.unicode_len();
    if bl == 0 {
        if kl > 0 && !str_range_has_char(key, 0, kl, '-') {
            proof {
                assert(key@.subrange(0, kl as int) =~= key@);
            }
            Some(key.to_owned())
        } else {
            proof {
                assert(key@.subrange(0, kl as int) =~= key@);
            }
            None
        }
    } else {
        if kl <= bl {
            return None;
        }
        if !str_starts_with(key, base) {
            return None;
        }
        if key.get_char(bl) != '-' {
            return None;
        }
        if str_range_has_char(key, bl + 1, kl, '-') {
            proof {
                assert(key@.subrange(bl as int + 1, kl as int) =~= key@.skip(bl as int + 1));
            }
            return None;
        }
        let tok = key.substring_char(bl + 1, kl);
        proof {
            assert(key@.subrange(bl as int + 1, kl as int) =~= key@.skip(bl as int + 1));
        }
        Some(tok.to_owned())
    }
}

/// Whether some move in `v` has exactly the characters of `t`.
fn holds_token(v: &Vec<crate::explore::ChessMove>, t: &str) -> (r: bool)
    ensures
        r == (exists|i: int| 0 <= i < v@.len() && (#[trigger] v@[i])@ == t@),
{
    let mut i: usize = 0;
    while i < v.len()
        invariant
            i <= v@.len(),
            forall|j: int| 0 <= j < i ==> (#[trigger] v@[j])@ != t@,
        decreases v@.len() - i,
    {
        if str_eq(v[i].0.as_str(), t) {
            return true;
        }
        i += 1;
    }
    false
}

impl Opening {
    /// Whether `m` is a move recorded exactly one ply past `base`.
    pub open spec fn is_child_token(self, base: Seq<char>, m: Seq<char>) -> bool {
        &&& !m.contains('-')
        &&& (base.len() == 0 ==> m.len() > 0)
        &&& self.has_key(child_key(base, m))
    }

    /// Every move recorded exactly one ply past `base`: each returned
    /// token is one, every such token is returned, and none repeats.
    #[verifier::rlimit(50)]
    pub fn children_of(&self, base: &str) -> (r: Vec<crate::explore::ChessMove>)
        requires
            self.wf(),
        ensures
            forall|i: int| 0 <= i < r@.len() ==> self.is_child_token(base@, (#[trigger] r@[i])@),
            forall|m: Seq<char>|
                self.is_child_token(base@, m) ==> exists|i: int|
                    0 <= i < r@.len() && (#[trigger] r@[i])@ == m,
            forall|i: int, j: int| 0 <= i < j < r@.len() ==> r@[i]@ != r@[j]@,
    {
        let mut r: Vec<crate::explore::ChessMove> = Vec::new();
        let mut idx: usize = 0;
        while idx < self.moves.len()
            invariant
                self.wf(),
                idx <= self.moves@.len(),
                forall|i: int|
                    0 <= i < r@.len() ==> self.is_child_token(base@, (#[trigger] r@[i])@),
                forall|j: int|
                    0 <= j < idx && is_child_key_of((#[trigger] self.moves@[j]).0@, base@)
                        ==> exists|i: int|
                        0 <= i < r@.len() && (#[trigger] r@[i])@ == child_token_of(
                            self.moves@[j].0@,
                            base@,
                        ),
                forall|i: int, j: int| 0 <= i < j < r@.len() ==> r@[i]@ != r@[j]@,
            decreases self.moves@.len() - idx,
        {
            let entry_key = self.moves[idx].0.as_str();
            let ghost key = self.moves@[idx as int].0@;
            match next_token_after(entry_key, base) {
                Some(tok) => {
                    let ghost r0 = r@;
                    proof {
                        lemma_child_key_token(key, base@);
                    }
                    if holds_token(&r, tok.as_str()) {
                        proof {
                            let w = choose|i: int|
                                0 <= i < r@.len() && (#[trigger] r@[i])@ == tok@;
                            assert forall|j: int|
                                0 <= j < idx + 1 && is_child_key_of(
                                    (#[trigger] self.moves@[j]).0@,
                                    base@,
                                ) implies exists|i: int|
                                0 <= i < r@.len() && (#[trigger] r@[i])@ == child_token_of(
                                    self.moves@[j].0@,
                                    base@,
                                ) by {
                                if j == idx {
                                    assert(0 <= w < r@.len() && (#[trigger] r@[w])@
                                        == child_token_of(self.moves@[j].0@, base@));
                                }
                            }
                        }
                        idx += 1;
                        continue;
                    }
                    r.push(crate::explore::ChessMove(tok));
                    proof {
                        let last = r0.len() as int;
                        assert(r@[last]@ == child_token_of(key, base@));
                        assert(self.has_key(child_key(base@, child_token_of(key, base@)))) by {
                            assert(self.moves@[idx as int].0@ == child_key(
                                base@,
                                child_token_of(key, base@),
                            ));
                        }
                        assert forall|j: int|
                            0 <= j < idx + 1 && is_child_key_of(
                                (#[trigger] self.moves@[j]).0@,
                                base@,
                            ) implies exists|i: int|
                            0 <= i < r@.len() && (#[trigger] r@[i])@ == child_token_of(
                                self.moves@[j].0@,
                                base@,
                            ) by {
                            if j == idx {
                                assert(0 <= last < r@.len() && (#[trigger] r@[last])@
                                    == child_token_of(self.moves@[j].0@, base@));
                            } else {
                                let i = choose|i: int|
                                    0 <= i < r0.len() && (#[trigger] r0[i])@ == child_token_of(
                                        self.moves@[j].0@,
                                        base@,
                                    );
                                assert(0 <= i < r@.len() && (#[trigger] r@[i])@ == child_token_of(
                                    self.moves@[j].0@,
                                    base@,
                                ));
                            }
                        }
                    }
                },
                None => {
                },
            }
            idx += 1;
        }
        proof {
            assert forall|m: Seq<char>| self.is_child_token(base@, m) implies exists|i: int|
                0 <= i < r@.len() && (#[trigger] r@[i])@ == m by {
                let j = choose|j: int|
                    0 <= j < self.moves@.len() && (#[trigger] self.moves@[j]).0@ == child_key(
                        base@,
                        m,
                    );
                if base@.len() > 0 {
                    assert(child_key(base@, m).skip(base@.len() as int + 1) =~= m);
                }
                assert(child_token_of(self.moves@[j].0@, base@) == m);
                lemma_child_key_token(self.moves@[j].0@, base@);
                assert(is_child_key_of(self.moves@[j].0@, base@));
            }
        }
        r
    }
}

/// Decides whether a study file's extension is acceptable: exactly
/// `opening`. A missing extension is reported as `none`, a wrong one
/// verbatim, matching the loader's message.
pub fn validate_extension(ext: Option<&str>) -> (r: Result<(), OpeningError>)
    ensures
        r is Ok <==> (ext matches Some(e) && e@ == "opening"@),
        r matches Err(err) ==> (err matches OpeningError::InvalidExtension(s) && (ext matches Some(
        e) ==> s@ == e@) && (ext is None ==> s@ == "none"@)),
{
    match ext {
        Some(e) => {
            if str_eq(e, "opening") {
                Ok(())
            } else {
                Err(OpeningError::InvalidExtension(e.to_owned()))
            }
        },
        None => Err(OpeningError::InvalidExtension(String::from_str("none"))),
    }
}

/// One line of the study loop's command surface.
pub enum StudyCommand {
    /// List every recorded sequence.
    List,
    /// Begin a practice game.
    Play,
    /// Leave the study session.
    Quit,
    /// Show the note for the named sequence.
    Show(String),
    /// Anything else.
    Unknown,
}

/// Maps one trimmed input line onto the study commands: `list`,
/// `play`, `quit`, or `show <sequence>` whose argument is trimmed of
/// surrounding spaces; anything else is unknown.
pub fn parse_study_command(input: &str) -> (c: StudyCommand)
    ensures
        c is List <==> input@ == "list"@,
        c is Play <==> input@ == "play"@,
        c is Quit <==> input@ == "quit"@,
        c is Show <==> (input@.len() >= "show "@.len() && input@.take("show "@.len() as int)
            == "show "@),
        c matches StudyCommand::Show(t) ==> t@ == trim_spec(input@.skip("show "@.len() as int)),
        c is Unknown <==> !(input@ == "list"@ || input@ == "play"@ || input@ == "quit"@ || (
        input@.len() >= "show "@.len() && input@.take("show "@.len() as int) == "show "@)),
{
    proof {
        reveal_strlit("list");
        reveal_strlit("play");
        reveal_strlit("quit");
        reveal_strlit("show ");
        assert("list"@[0] != "play"@[0]);
        assert("list"@[0] != "quit"@[0]);
        assert("play"@[0] != "quit"@[0]);
    }
    if str_eq(input, "list") {
        return StudyCommand::List;
    }
    if str_eq(input, "play") {
        return StudyCommand::Play;
    }
    if str_eq(input, "quit") {
        return StudyCommand::Quit;
    }
    if str_starts_with(input, "show ") {
        let l = input.unicode_len();
        let rest = input.substring_char(5, l);
        proof {
            assert(rest@ =~= input@.skip("show "@.len() as int));
        }
        let t = trim_spaces(rest);
        return StudyCommand::Show(t);
    }
    StudyCommand::Unknown
}

} // verus!
