use vstd::prelude::*;

verus! {

/// A chess move in algebraic notation, held as an opaque token:
/// never validated for legality, compared by exact characters.
pub struct ChessMove(pub String);

impl View for ChessMove {
    type V = Seq<char>;

    open spec fn view(&self) -> Seq<char> {
        self.0@
    }
}

/// The canonical key of a sequence of move tokens: the tokens joined
/// by `-`. The empty sequence encodes to the empty string.
pub open spec fn encode_seq(tokens: Seq<Seq<char>>) -> Seq<char>
    decreases tokens.len(),
{
    if tokens.len() == 0 {
        Seq::empty()
    } else if tokens.len() == 1 {
        tokens[0]
    } else {
        tokens[0] + seq!['-'] + encode_seq(tokens.skip(1))
    }
}

/// Splitting a key string at every `-`: the inverse of `encode_seq`
/// on separator-free tokens. The empty string decodes to one empty token.
pub open spec fn decode_key(s: Seq<char>) -> Seq<Seq<char>>
    decreases s.len(),
{
    if s.len() == 0 {
        seq![Seq::empty()]
    } else if s[0] == '-' {
        seq![Seq::<char>::empty()] + decode_key(s.skip(1))
    } else {
        let rest = decode_key(s.skip(1));
        seq![seq![s[0]] + rest[0]] + rest.skip(1)
    }
}

/// Appending one more token to a non-empty sequence extends its key by
/// a separator and the token.
pub proof fn lemma_encode_push(tokens: Seq<Seq<char>>, t: Seq<char>)
    requires
        tokens.len() > 0,
    ensures
        encode_seq(tokens.push(t)) == encode_seq(tokens) + seq!['-'] + t,
    decreases tokens.len(),
{
    if tokens.len() == 1 {
        assert(tokens.push(t).skip(1) =~= seq![t]);
        assert(encode_seq(seq![t]) == t);
        assert(tokens.push(t)[0] == tokens[0]);
        assert(encode_seq(tokens) == tokens[0]);
        assert(encode_seq(tokens.push(t)) =~= tokens[0] + seq!['-'] + t);
    } else {
        lemma_encode_push(tokens.skip(1), t);
        assert(tokens.push(t).skip(1) =~= tokens.skip(1).push(t));
        assert(encode_seq(tokens.push(t)) =~= encode_seq(tokens) + seq!['-'] + t);
    }
}

proof fn lemma_decode_sep_free(s: Seq<char>)
    requires
        !s.contains('-'),
    ensures
        decode_key(s) == seq![s],
    decreases s.len(),
{
    if s.len() == 0 {
        assert(s =~= Seq::<char>::empty());
        assert(decode_key(s) =~~= seq![s]);
    } else {
        assert(s.contains('-') == (exists|i: int| 0 <= i < s.len() && s[i] == '-'));
        assert(s[0] != '-');
        assert(forall|i: int| 0 <= i < s.skip(1).len() ==> s.skip(1)[i] == s[i + 1]);
        assert(!s.skip(1).contains('-')) by {
            if s.skip(1).contains('-') {
                let i = choose|i: int| 0 <= i < s.skip(1).len() && s.skip(1)[i] == '-';
                assert(s[i + 1] == '-');
            }
        }
        lemma_decode_sep_free(s.skip(1));
        assert(seq![s[0]] + s.skip(1) =~= s);
        assert(decode_key(s.skip(1)).skip(1) =~= Seq::<Seq<char>>::empty());
        assert(decode_key(s) =~~= seq![s]);
    }
}

proof fn lemma_decode_concat(a: Seq<char>, rest: Seq<char>)
    requires
        !a.contains('-'),
    ensures
        decode_key(a + seq!['-'] + rest) == seq![a] + decode_key(rest),
    decreases a.len(),
{
    let s = a + seq!['-'] + rest;
    if a.len() == 0 {
        assert(s[0] == '-');
        assert(s.skip(1) =~= rest);
        assert(a =~= Seq::<char>::empty());
        assert(decode_key(s) =~~= seq![a] + decode_key(rest));
    } else {
        assert(s[0] == a[0]);
        assert(a[0] != '-') by {
            assert(a.contains('-') == (exists|i: int| 0 <= i < a.len() && a[i] == '-'));
        }
        assert(!a.skip(1).contains('-')) by {
            if a.skip(1).contains('-') {
                let i = choose|i: int| 0 <= i < a.skip(1).len() && a.skip(1)[i] == '-';
                assert(a[i + 1] == '-');
                assert(a.contains('-'));
            }
        }
        lemma_decode_concat(a.skip(1), rest);
        assert(s.skip(1) =~= a.skip(1) + seq!['-'] + rest);
        let sub = decode_key(s.skip(1));
        assert(sub == seq![a.skip(1)] + decode_key(rest));
        assert(sub[0] == a.skip(1));
        assert(seq![s[0]] + sub[0] =~= a);
        assert(sub.skip(1) =~= decode_key(rest));
        assert(decode_key(s) == seq![seq![s[0]] + sub[0]] + sub.skip(1));
        assert(decode_key(s) =~~= seq![a] + decode_key(rest));
    }
}

/// Round trip: any non-empty token sequence whose tokens are free of the
/// separator is recovered exactly by decoding its encoded key.
pub proof fn lemma_encode_decode(tokens: Seq<Seq<char>>)
    requires
        tokens.len() > 0,
        forall|i: int| 0 <= i < tokens.len() ==> !(#[trigger] tokens[i]).contains('-'),
    ensures
        decode_key(encode_seq(tokens)) == tokens,
    decreases tokens.len(),
{
    if tokens.len() == 1 {
        lemma_decode_sep_free(tokens[0]);
        assert(decode_key(encode_seq(tokens)) =~= tokens);
    } else {
        assert(forall|i: int|
            0 <= i < tokens.skip(1).len() ==> tokens.skip(1)[i] == tokens[i + 1]);
        lemma_encode_decode(tokens.skip(1));
        lemma_decode_concat(tokens[0], encode_seq(tokens.skip(1)));
        assert(decode_key(encode_seq(tokens)) =~= tokens);
    }
}

/// The decimal digit character for a value below ten.
pub open spec fn dec_digit(d: int) -> char {
    ((48 + d) as u8) as char
}

/// The usual decimal rendering of a non-negative number, most
/// significant digit first.
pub open spec fn dec_digits(n: int) -> Seq<char>
    decreases n,
{
    if n < 10 {
        seq![dec_digit(n)]
    } else {
        dec_digits(n / 10).push(dec_digit(n % 10))
    }
}

/// Relies on String::push: appends exactly the given character.
#[verifier::external_body]
fn push_char(s: &mut String, c: char)
    ensures
        final(s)@ == old(s)@.push(c),
{
    s.push(c);
}

fn render_number(n: u64) -> (s: String)
    ensures
        s@ == dec_digits(n as int),
    decreases n,
{
    let d: u8 = 48 + (n % 10) as u8;
    let c: char = d as char;
    if n < 10 {
        let mut s = String::new();
        push_char(&mut s, c);
        proof {
            assert(s@ =~= dec_digits(n as int));
        }
        s
    } else {
        let mut s = render_number(n / 10);
        push_char(&mut s, c);
        s
    }
}

/// The numbered move-pair rendering of the tokens, starting at the given
/// move number: `num. white black`, pairs joined by single spaces, a
/// trailing lone token rendered without a partner.
pub open spec fn pgn_pairs(tokens: Seq<Seq<char>>, num: int) -> Seq<char>
    decreases tokens.len(),
{
    if tokens.len() == 0 {
        Seq::empty()
    } else {
        let head = dec_digits(num) + seq!['.', ' '] + tokens[0] + (if tokens.len() >= 2 {
            seq![' '] + tokens[1]
        } else {
            Seq::<char>::empty()
        });
        if tokens.len() <= 2 {
            head
        } else {
            head + seq![' '] + pgn_pairs(tokens.skip(2), num + 1)
        }
    }
}

/// The full rendering: pairs numbered from one.
pub open spec fn pgn_of(tokens: Seq<Seq<char>>) -> Seq<char> {
    pgn_pairs(tokens, 1)
}

/// What urlencoding::encode returns: a function of the characters alone.
pub uninterp spec fn url_encoded(s: Seq<char>) -> Seq<char>;

/// Relies on urlencoding::encode: percent-encodes every byte except
/// ASCII alphanumerics and `-`, `_`, `.`, `~`; the result depends on
/// the input characters alone.
#[verifier::external_body]
fn encode_url_component(s: &str) -> (r: String)
    ensures
        r@ == url_encoded(s@),
{
    urlencoding::encode(s).into_owned()
}

/// The analysis address for a line: a fixed site template with the
/// percent-encoded rendering of the moves as its final path segment.
pub open spec fn lichess_url_of(tokens: Seq<Seq<char>>) -> Seq<char> {
    "https://lichess.org/analysis/pgn/"@ + url_encoded(pgn_of(tokens))
}

/// An ordered sequence of chess moves: the committed history of a drill,
/// or any line a caller wants to render.
pub struct MoveSequence {
    moves: Vec<ChessMove>,
}

impl View for MoveSequence {
    type V = Seq<Seq<char>>;

    closed spec fn view(&self) -> Seq<Seq<char>> {
        self.moves@.map_values(|m: ChessMove| m@)
    }
}

impl MoveSequence {
    pub fn new() -> (res: Self)
        ensures
            res@ == Seq::<Seq<char>>::empty(),
    {
        let res = Self { moves: Vec::new() };
        proof {
            assert(res@ =~= Seq::<Seq<char>>::empty());
        }
        res
    }

    pub fn add_move(&mut self, mv: ChessMove)
        ensures
            final(self)@ == old(self)@.push(mv@),
    {
        self.moves.push(mv);
        proof {
            assert(self@ =~= old(self)@.push(self.moves@.last()@));
        }
    }

    pub fn remove_last_move(&mut self)
        requires
            old(self)@.len() > 0,
        ensures
            final(self)@ == old(self)@.drop_last(),
    {
        self.moves.pop();
        proof {
            assert(self@ =~= old(self)@.drop_last());
        }
    }

    pub fn is_empty(&self) -> (res: bool)
        ensures
            res == (self@.len() == 0),
    {
        self.moves.len() == 0
    }

    pub fn len(&self) -> (res: usize)
        ensures
            res == self@.len(),
    {
        self.moves.len()
    }

    fn pgn_from(&self, i: usize, num: u64) -> (s: String)
        requires
            i <= self.moves@.len(),
            num + (self.moves@.len() - i) / 2 <= u64::MAX,
        ensures
            s@ == pgn_pairs(self@.skip(i as int), num as int),
        decreases self.moves@.len() - i,
    {
        let ghost tokens = self@.skip(i as int);
        if i == self.moves.len() {
            proof {
                assert(tokens =~= Seq::<Seq<char>>::empty());
            }
            String::new()
        } else {
            let mut s = render_number(num);
            push_char(&mut s, '.');
            push_char(&mut s, ' ');
            s.append(self.moves[i].0.as_str());
            proof {
                assert(tokens[0] == self@[i as int]);
                assert(s@ =~= dec_digits(num as int) + seq!['.', ' '] + tokens[0]);
            }
            let rem = self.moves.len() - i;
            if rem > 1 {
                push_char(&mut s, ' ');
                s.append(self.moves[i + 1].0.as_str());
                proof {
                    assert(tokens[1] == self@[i as int + 1]);
                    assert(s@ =~= dec_digits(num as int) + seq!['.', ' '] + tokens[0] + (
                    seq![' '] + tokens[1]));
                }
            } else {
                proof {
                    assert(tokens.len() == 1);
                    assert(s@ =~= dec_digits(num as int) + seq!['.', ' '] + tokens[0]
                        + Seq::<char>::empty());
                }
            }
            if rem > 2 {
                push_char(&mut s, ' ');
                let tail = self.pgn_from(i + 2, num + 1);
                s.append(tail.as_str());
                proof {
                    assert(self@.skip(i as int + 2) =~= tokens.skip(2));
                    assert(s@ =~= pgn_pairs(tokens, num as int));
                }
            } else {
                proof {
                    assert(tokens.len() <= 2);
                    assert(s@ =~= pgn_pairs(tokens, num as int));
                }
            }
            s
        }
    }

    /// The numbered move-pair text rendering of the sequence:
    /// `1. e4 e5 2. Nf3` and so on.
    pub fn to_pgn(&self) -> (s: String)
        ensures
            s@ == pgn_of(self@),
    {
        let n = self.moves.len();
        proof {
            assert(self.moves@.len() == n as int);
            assert(self@.skip(0) =~= self@);
        }
        self.pgn_from(0, 1)
    }

    /// The analysis address embedding the rendered moves,
    /// percent-encoded, in a fixed site template.
    pub fn to_lichess_url(&self) -> (r: String)
        ensures
            r@ == lichess_url_of(self@),
    {
        let pgn = self.to_pgn();
        let encoded = encode_url_component(pgn.as_str());
        let mut url = String::from_str("https://lichess.org/analysis/pgn/");
        url.append(encoded.as_str());
        url
    }

    /// The canonical key of the sequence: tokens joined by `-`.
    pub fn to_key(&self) -> (res: String)
        ensures
            res@ == encode_seq(self@),
    {
        let mut s = String::new();
        let mut i: usize = 0;
        proof {
            reveal_strlit("-");
            assert(self@.take(0) =~= Seq::<Seq<char>>::empty());
        }
        while i < self.moves.len()
            invariant
                i <= self.moves@.len(),
                s@ == encode_seq(self@.take(i as int)),
            decreases self.moves@.len() - i,
        {
            if i > 0 {
                s.append("-");
                proof {
                    reveal_strlit("-");
                }
            }
            s.append(self.moves[i].0.as_str());
            proof {
                let prev = self@.take(i as int);
                let now = self@.take(i as int + 1);
                assert(now =~= prev.push(self@[i as int]));
                if i > 0 {
                    lemma_encode_push(prev, self@[i as int]);
                } else {
                    assert(encode_seq(now) == now[0]);
                }
                assert(s@ == encode_seq(now));
            }
            i += 1;
        }
        proof {
            assert(self@.take(self.moves@.len() as int) =~= self@);
        }
        s
    }
}

} // verus!
