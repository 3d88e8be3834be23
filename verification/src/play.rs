use vstd::prelude::*;

use crate::explore::ChessMove;
use crate::explore::MoveSequence;
use crate::explore::encode_seq;
use crate::explore::lichess_url_of;
use crate::opening::Opening;
use crate::text::str_eq;
use crate::text::str_starts_with;
use crate::text::trim_spaces;
use crate::text::trim_spec;

verus! {

/// Which side the human plays in a practice game.
#[derive(Clone, Copy, PartialEq, Eq, Structural, Debug)]
pub enum PlayerColor {
    White,
    Black,
}

/// A player move that matches no recorded sequence. The session's
/// history is left exactly as it stood before the move.
pub struct Deviation;

/// Picks the automated side's reply from a candidate list.
pub struct MoveSelector;

/// Relies on rand::thread_rng and rand::Rng::gen_range: returns some
/// value below the bound; nothing more is assumed of the draw.
#[verifier::external_body]
fn random_below(n: usize) -> (r: usize)
    requires
        n > 0,
    ensures
        r < n,
{
    rand::Rng::gen_range(&mut rand::thread_rng(), 0..n)
}

impl MoveSelector {
    /// Chooses one candidate, any of them, each call drawing afresh;
    /// `None` exactly on an empty list, and the sole element whenever
    /// only one is offered.
    pub fn select<'a>(candidates: &'a Vec<ChessMove>) -> (r: Option<&'a ChessMove>)
        ensures
            r is Some <==> candidates@.len() > 0,
            r matches Some(c) ==> exists|i: int|
                0 <= i < candidates@.len() && (#[trigger] candidates@[i])@ == c@,
            candidates@.len() == 1 ==> (r matches Some(c) && c@ == candidates@[0]@),
    {
        if candidates.len() == 0 {
            None
        } else {
            let i = random_below(candidates.len());
            proof {
                assert((#[trigger] candidates@[i as int])@ == candidates@[i as int]@);
            }
            Some(&candidates[i])
        }
    }
}

/// One line of the practice loop's command surface.
pub enum PlayCommand {
    /// End the practice game.
    Stop,
    /// Render the current position's analysis address.
    Explore,
    /// Play the named move.
    Move(ChessMove),
    /// Anything else.
    Unknown,
}

/// Maps one trimmed input line onto the practice commands: `stop`,
/// `explore`, or `move <token>` whose token is trimmed of surrounding
/// spaces; anything else is unknown.
pub fn parse_play_command(input: &str) -> (c: PlayCommand)
    ensures
        c is Stop <==> input@ == "stop"@,
        c is Explore <==> input@ == "explore"@,
        c is Move <==> (input@.len() >= "move "@.len() && input@.take("move "@.len() as int)
            == "move "@),
        c matches PlayCommand::Move(m) ==> m@ == trim_spec(input@.skip("move "@.len() as int)),
        c is Unknown <==> !(input@ == "stop"@ || input@ == "explore"@ || (input@.len() >= "move "@
            .len() && input@.take("move "@.len() as int) == "move "@)),
{
    proof {
        reveal_strlit("stop");
        reveal_strlit("explore");
        reveal_strlit("move ");
        assert("stop"@[0] != "explore"@[0]);
        assert("stop"@[0] != "move "@[0]);
        assert("explore"@[0] != "move "@[0]);
    }
    if str_eq(input, "stop") {
        return PlayCommand::Stop;
    }
    if str_eq(input, "explore") {
        proof {
            assert(input@.len() >= "move "@.len() && input@.take("move "@.len() as int)[0]
                == "explore"@[0]);
        }
        return PlayCommand::Explore;
    }
    if str_starts_with(input, "move ") {
        let l = input.unicode_len();
        let rest = input.substring_char(5, l);
        proof {
            assert(rest@ =~= input@.skip("move "@.len() as int));
        }
        let t = trim_spaces(rest);
        return PlayCommand::Move(ChessMove(t));
    }
    PlayCommand::Unknown
}

/// Whether `cand` continues `base` on token boundaries: `base` is the
/// empty key, or `cand` runs past `base` straight into a separator;
/// and `cand` is not `base` itself. A string-prefix match that splits
/// a token does not qualify.
pub open spec fn is_strict_continuation(cand: Seq<char>, base: Seq<char>) -> bool {
    &&& cand != base
    &&& (base.len() == 0 || (cand.len() > base.len() && cand.take(base.len() as int) == base
        && cand[base.len() as int] == '-'))
}

/// A practice round over one study: walks the recorded sequences as
/// the human enters moves, answering from the book. Borrows the study
/// it drills on; owns its committed history alone.
pub struct PlaySession<'a> {
    /// The study being drilled; read-only for the session's lifetime.
    pub opening: &'a Opening,
    /// The committed moves; mutate it only through the session.
    pub move_sequence: MoveSequence,
    /// The side the human plays.
    pub player_color: PlayerColor,
}

impl<'a> PlaySession<'a> {
    /// The moves committed so far, oldest first.
    pub open spec fn history(self) -> Seq<Seq<char>> {
        self.move_sequence@
    }

    /// A fresh session over the study: nothing played yet.
    pub fn new(opening: &'a Opening, player_color: PlayerColor) -> (s: Self)
        ensures
            s.opening == opening,
            s.player_color == player_color,
            s.history() == Seq::<Seq<char>>::empty(),
    {
        PlaySession { opening, move_sequence: MoveSequence::new(), player_color }
    }

    /// Whether no move has been committed yet.
    pub fn is_first_move(&self) -> (r: bool)
        ensures
            r == (self.history().len() == 0),
    {
        self.move_sequence.is_empty()
    }

    /// The canonical key of the committed history.
    pub fn current_key(&self) -> (r: String)
        ensures
            r@ == encode_seq(self.history()),
    {
        self.move_sequence.to_key()
    }

    /// The analysis address for the committed history: always the
    /// history as committed, never a rolled-back move.
    pub fn handle_explore(&self) -> (r: String)
        ensures
            r@ == lichess_url_of(self.history()),
    {
        self.move_sequence.to_lichess_url()
    }

    /// Resolves one player move. If the history extended by the move
    /// is recorded, the move is committed and its note returned; if
    /// not, the history stands unchanged and the move is reported as a
    /// deviation.
    pub fn handle_player_move(&mut self, mv: ChessMove) -> (r: Result<String, Deviation>)
        requires
            old(self).opening.wf(),
        ensures
            final(self).opening == old(self).opening,
            final(self).player_color == old(self).player_color,
            ({
                let k = encode_seq(old(self).history().push(mv@));
                &&& (r is Ok <==> old(self).opening.has_key(k))
                &&& (r matches Ok(note) ==> {
                    &&& final(self).history() == old(self).history().push(mv@)
                    &&& note@ == old(self).opening.as_map()[k]
                })
                &&& (r is Err ==> final(self).history() == old(self).history())
            }),
    {
        let opening = self.opening;
        self.move_sequence.add_move(mv);
        let key = self.move_sequence.to_key();
        match opening.lookup(key.as_str()) {
            Some(n) => Ok(n.note.clone()),
            None => {
                self.move_sequence.remove_last_move();
                proof {
                    assert(self.history() =~= old(self).history());
                }
                Err(Deviation)
            },
        }
    }

    /// Whether the stored key continues the committed history on token
    /// boundaries, strictly.
    pub fn sequence_is_supersequence(&self, stored: &str) -> (r: bool)
        ensures
            r == is_strict_continuation(stored@, encode_seq(self.history())),
    {
        let key = self.move_sequence.to_key();
        let kl = key.unicode_len();
        let sl = stored.unicode_len();
        if kl == 0 {
            proof {
                if sl == 0 {
                    assert(stored@ =~= key@);
                }
            }
            return sl != 0;
        }
        if sl <= kl {
            return false;
        }
        if !str_starts_with(stored, key.as_str()) {
            return false;
        }
        if stored.get_char(kl) != '-' {
            return false;
        }
        true
    }

    /// Plays the book's reply, if it has one: some recorded move one
    /// ply past the committed history is chosen and committed, and
    /// returned with the note at the reached position, if any. With no
    /// recorded continuation the history stands unchanged and `None`
    /// says the book is exhausted.
    pub fn make_computer_move(&mut self) -> (r: Option<(ChessMove, Option<String>)>)
        requires
            old(self).opening.wf(),
        ensures
            final(self).opening == old(self).opening,
            final(self).player_color == old(self).player_color,
            ({
                let base = encode_seq(old(self).history());
                &&& (r is Some <==> exists|m: Seq<char>|
                    old(self).opening.is_child_token(base, m))
                &&& (r is None ==> final(self).history() == old(self).history())
                &&& (r matches Some(p) ==> {
                    let k = encode_seq(old(self).history().push(p.0@));
                    &&& old(self).opening.is_child_token(base, p.0@)
                    &&& final(self).history() == old(self).history().push(p.0@)
                    &&& (p.1 is Some <==> old(self).opening.has_key(k))
                    &&& (p.1 matches Some(n) ==> n@ == old(self).opening.as_map()[k])
                })
            }),
    {
        let opening = self.opening;
        let key = self.move_sequence.to_key();
        let candidates = opening.children_of(key.as_str());
        let ghost base = encode_seq(old(self).history());
        match MoveSelector::select(&candidates) {
            None => {
                proof {
                    assert forall|m: Seq<char>| !old(self).opening.is_child_token(base, m) by {
                        if old(self).opening.is_child_token(base, m) {
                            assert(opening.is_child_token(key@, m));
                            let i = choose|i: int|
                                0 <= i < candidates@.len() && (#[trigger] candidates@[i])@ == m;
                            assert(candidates@.len() > 0);
                        }
                    }
                }
                None
            },
            Some(c) => {
                let mv = ChessMove(c.0.clone());
                let reply = ChessMove(mv.0.clone());
                proof {
                    assert(mv@ == c@ && reply@ == mv@);
                    let i = choose|i: int|
                        0 <= i < candidates@.len() && (#[trigger] candidates@[i])@ == c@;
                    assert(opening.is_child_token(key@, candidates@[i]@));
                    assert(old(self).opening.is_child_token(base, mv@));
                }
                let ghost mvv = mv@;
                self.move_sequence.add_move(mv);
                let new_key = self.move_sequence.to_key();
                proof {
                    assert(self.history() == old(self).history().push(mvv));
                    assert(new_key@ == encode_seq(old(self).history().push(mvv)));
                }
                let note: Option<String> = match opening.lookup(new_key.as_str()) {
                    Some(n) => Some(n.note.clone()),
                    None => None,
                };
                Some((reply, note))
            },
        }
    }
}

} // verus!
