use crate::patricia::PatriciaNode;
use crate::util::clone_string_vec;
use vstd::prelude::*;
use vstd::string::StrSliceExecFns;

verus! {

/// Tokenization failure: no alphabet symbol starts at the current position.
/// `text` is the shortest substring at that position that is a prefix of no
/// alphabet symbol (or everything left, if the input ends in the middle of a
/// symbol), and `alphabet` is the full alphabet, for diagnostics.
#[derive(Debug)]
pub struct InvalidSymbol {
    pub text: String,
    pub alphabet: Vec<String>,
}

/// `s` begins with `p`.
pub open spec fn starts_with(s: Seq<char>, p: Seq<char>) -> bool {
    p.len() <= s.len() && s.take(p.len() as int) == p
}

/// The longest `j <= k` such that the first `j` characters of `s` form an
/// alphabet symbol; 0 when none does.
pub open spec fn match_len(alpha: Seq<Seq<char>>, s: Seq<char>, k: nat) -> nat
    decreases k,
{
    if k == 0 {
        0
    } else if k <= s.len() && alpha.contains(s.take(k as int)) {
        k
    } else {
        match_len(alpha, s, (k - 1) as nat)
    }
}

/// The length of the longest alphabet symbol that is a prefix of `s`.
pub open spec fn longest_match(alpha: Seq<Seq<char>>, s: Seq<char>) -> nat {
    match_len(alpha, s, s.len())
}

proof fn lemma_match_len(alpha: Seq<Seq<char>>, s: Seq<char>, k: nat)
    ensures
        match_len(alpha, s, k) <= k,
        match_len(alpha, s, k) <= s.len(),
        match_len(alpha, s, k) > 0 ==> alpha.contains(s.take(match_len(alpha, s, k) as int)),
        forall|j: nat| 1 <= j <= k && j <= s.len() && alpha.contains(s.take(j as int)) ==> j
            <= match_len(alpha, s, k),
    decreases k,
{
    if k > 0 {
        lemma_match_len(alpha, s, (k - 1) as nat);
    }
}

/// Some alphabet symbol begins with `w`.
pub open spec fn live(alpha: Seq<Seq<char>>, w: Seq<char>) -> bool {
    exists|i: int| 0 <= i < alpha.len() && starts_with(#[trigger] alpha[i], w)
}

/// The first position `l >= j` (up to the whole length of `s`) at which the
/// first `l` characters of `s` are a prefix of no alphabet symbol.
pub open spec fn off_len(alpha: Seq<Seq<char>>, s: Seq<char>, j: nat) -> nat
    decreases s.len() - j,
{
    if j >= s.len() {
        s.len()
    } else if !live(alpha, s.take(j as int)) {
        j
    } else {
        off_len(alpha, s, j + 1)
    }
}

/// The shortest non-empty prefix of `s` that begins no alphabet symbol, or
/// all of `s` when every prefix is still the beginning of some symbol.
pub open spec fn offending(alpha: Seq<Seq<char>>, s: Seq<char>) -> Seq<char> {
    s.take(off_len(alpha, s, 1) as int)
}

/// Greedy longest-prefix tokenization of `s` over the alphabet `alpha`: at
/// each position take the longest alphabet symbol that starts there, or fail
/// with the offending substring when none does (not even a single
/// character). Matches are at least one character long, so a degenerate
/// empty symbol in the alphabet is never emitted.
pub open spec fn tokenize_spec(alpha: Seq<Seq<char>>, s: Seq<char>) -> Result<
    Seq<Seq<char>>,
    Seq<char>,
>
    decreases s.len() via tokenize_spec_decreases
{
    if s.len() == 0 {
        Ok(Seq::empty())
    } else {
        let m = longest_match(alpha, s);
        if m == 0 {
            Err(offending(alpha, s))
        } else {
            match tokenize_spec(alpha, s.skip(m as int)) {
                Ok(toks) => Ok(seq![s.take(m as int)] + toks),
                Err(e) => Err(e),
            }
        }
    }
}

#[via_fn]
proof fn tokenize_spec_decreases(alpha: Seq<Seq<char>>, s: Seq<char>) {
    if s.len() > 0 {
        lemma_match_len(alpha, s, s.len());
    }
}

/// Prepends already-emitted tokens to the outcome of tokenizing the rest.
pub open spec fn tok_prepend(
    ts: Seq<Seq<char>>,
    r: Result<Seq<Seq<char>>, Seq<char>>,
) -> Result<Seq<Seq<char>>, Seq<char>> {
    match r {
        Ok(x) => Ok(ts + x),
        Err(e) => Err(e),
    }
}

/// Tokenization never drops or invents characters: on success the emitted
/// symbols concatenate back to exactly the input and every one of them is an
/// alphabet member. Hence a string that cannot be written as a concatenation
/// of alphabet symbols always fails with the offending substring, it is
/// never truncated silently.
pub proof fn lemma_tokenize_sound(alpha: Seq<Seq<char>>, s: Seq<char>)
    ensures
        tokenize_spec(alpha, s) matches Ok(toks) ==> toks.flatten() == s && forall|i: int|
            0 <= i < toks.len() ==> alpha.contains(#[trigger] toks[i]),
    decreases s.len(),
{
    if s.len() == 0 {
        assert(Seq::<Seq<char>>::empty().flatten() =~= s);
    } else {
        let m = longest_match(alpha, s);
        lemma_match_len(alpha, s, s.len());
        if m > 0 {
            lemma_tokenize_sound(alpha, s.skip(m as int));
            if tokenize_spec(alpha, s) is Ok {
                let toks0 = tokenize_spec(alpha, s.skip(m as int))->Ok_0;
                let toks = tokenize_spec(alpha, s)->Ok_0;
                assert(toks == seq![s.take(m as int)] + toks0);
                assert(toks.drop_first() =~= toks0);
                assert(toks.first() == s.take(m as int));
                assert(toks.flatten() == s.take(m as int) + toks0.flatten());
                assert(s.take(m as int) + s.skip(m as int) =~= s);
                assert(toks.flatten() == s);
                assert forall|i: int| 0 <= i < toks.len() implies alpha.contains(
                    #[trigger] toks[i],
                ) by {
                    if i > 0 {
                        assert(toks[i] == toks0[i - 1]);
                    } else {
                        assert(toks[0] == s.take(m as int));
                    }
                }
            }
        }
    }
}

/// The alphabet shape under which greedy longest-prefix tokenization is a
/// left inverse of concatenation: whenever one symbol extends another, the
/// first character of the extension begins no symbol of the alphabet. An
/// alphabet with no symbol a prefix of another satisfies this vacuously, and
/// so does one with tie-broken families such as a, a', a'' and #a, whose
/// tie-break character starts no symbol.
pub open spec fn greedy_safe(alpha: Seq<Seq<char>>) -> bool {
    forall|x: int, z: int, y: int|
        0 <= x < alpha.len() && 0 <= z < alpha.len() && 0 <= y < alpha.len() && alpha[x].len()
            < alpha[z].len() && starts_with(#[trigger] alpha[z], #[trigger] alpha[x])
            && alpha[y].len() > 0 ==> (#[trigger] alpha[y][0]) != alpha[z][alpha[x].len() as int]
}

/// The first element of a flattened sequence is the first character of its
/// first non-empty element, when that element comes first.
proof fn lemma_flatten_first(ts: Seq<Seq<char>>)
    requires
        ts.len() > 0,
        ts[0].len() > 0,
    ensures
        ts.flatten().len() > 0,
        ts.flatten()[0] == ts[0][0],
{
    assert(ts.flatten() == ts[0] + ts.drop_first().flatten());
}

/// Greedy round trip: over a `greedy_safe` alphabet of non-empty symbols,
/// tokenizing the concatenation of any chosen sequence of symbols yields
/// back exactly that sequence.
pub proof fn lemma_greedy_round_trip(alpha: Seq<Seq<char>>, toks: Seq<Seq<char>>)
    requires
        forall|i: int| 0 <= i < alpha.len() ==> (#[trigger] alpha[i]).len() > 0,
        greedy_safe(alpha),
        forall|i: int| 0 <= i < toks.len() ==> alpha.contains(#[trigger] toks[i]),
    ensures
        tokenize_spec(alpha, toks.flatten()) == Ok::<_, Seq<char>>(toks),
    decreases toks.len(),
{
    let s = toks.flatten();
    if toks.len() == 0 {
        assert(s.len() == 0);
        assert(tokenize_spec(alpha, s) == Ok::<_, Seq<char>>(toks)) by {
            assert(Seq::<Seq<char>>::empty() =~= toks);
        }
    } else {
        let x = toks[0];
        let xi = choose|xi: int| 0 <= xi < alpha.len() && alpha[xi] == x;
        let xl = x.len() as int;
        let rest = toks.drop_first();
        assert(s == x + rest.flatten());
        assert(x.len() > 0);
        assert(s.take(xl) =~= x);
        assert(s.skip(xl) =~= rest.flatten());
        lemma_match_len(alpha, s, s.len());
        let m = longest_match(alpha, s);
        // the in-alphabet symbol x matching at the cursor bounds m from below
        assert(m >= x.len()) by {
            assert(alpha.contains(s.take(xl)));
        }
        // greedy safety bounds m from above: a longer match would have to
        // continue into the next symbol, whose first character starts it
        assert(m <= x.len()) by {
            if m > x.len() {
                let z = s.take(m as int);
                assert(alpha.contains(z));
                let zi = choose|zi: int| 0 <= zi < alpha.len() && alpha[zi] == z;
                assert(z.len() <= s.len());
                assert(rest.flatten().len() > 0);
                assert(rest.len() > 0) by {
                    if rest.len() == 0 {
                        assert(rest.flatten().len() == 0);
                    }
                }
                assert(rest[0] == toks[1]);
                assert(alpha.contains(rest[0]));
                let yi = choose|yi: int| 0 <= yi < alpha.len() && alpha[yi] == rest[0];
                lemma_flatten_first(rest);
                assert(z[xl] == s[xl]);
                assert(s[xl] == rest.flatten()[0]);
                assert(starts_with(z, x)) by {
                    assert(z.take(xl) =~= s.take(xl));
                }
                assert(alpha[yi][0] != alpha[zi][alpha[xi].len() as int]);
                assert(false);
            }
        }
        assert(m == x.len());
        lemma_greedy_round_trip(alpha, rest);
        assert(tokenize_spec(alpha, s.skip(m as int)) == Ok::<_, Seq<char>>(rest));
        assert(tokenize_spec(alpha, s) == Ok::<_, Seq<char>>(seq![s.take(m as int)] + rest));
        assert(seq![s.take(m as int)] + rest =~= toks);
    }
}

/// Does `s` begin with `p`? (character-wise)
fn str_starts_with(s: &str, p: &str) -> (r: bool)
    ensures
        r == starts_with(s@, p@),
{
    let sl = s.unicode_len();
    let pl = p.unicode_len();
    if pl > sl {
        return false;
    }
    let mut i: usize = 0;
    while i < pl
        invariant
            sl == s@.len(),
            pl == p@.len(),
            pl <= sl,
            i <= pl,
            forall|j: int| 0 <= j < i ==> s@[j] == p@[j],
        decreases pl - i,
    {
        if s.get_char(i) != p.get_char(i) {
            proof {
                assert(s@.take(pl as int)[i as int] == s@[i as int]);
            }
            return false;
        }
        i += 1;
    }
    proof {
        assert(s@.take(pl as int) =~= p@);
    }
    true
}

/// Is `w` a prefix of some alphabet symbol?
fn is_live(alphabet: &Vec<String>, w: &str) -> (r: bool)
    ensures
        r == live(alphabet.deep_view(), w@),
{
    let mut i: usize = 0;
    while i < alphabet.len()
        invariant
            i <= alphabet@.len(),
            forall|j: int|
                0 <= j < i ==> !starts_with(#[trigger] alphabet.deep_view()[j], w@),
        decreases alphabet@.len() - i,
    {
        if str_starts_with(alphabet[i].as_str(), w) {
            proof {
                assert(starts_with(alphabet.deep_view()[i as int], w@));
            }
            return true;
        }
        proof {
            assert(alphabet.deep_view()[i as int] == alphabet@[i as int]@);
        }
        i += 1;
    }
    false
}

/// Splits `s` into a sequence of alphabet symbols by greedy longest-prefix
/// matching against a radix trie built from the alphabet, or reports the
/// offending substring (together with the whole alphabet) when some position
/// starts no symbol. The whole string is consumed or the call fails.
#[verifier::loop_isolation(false)]
pub fn string_to_tape(s: &str, alphabet: &Vec<String>) -> (r: Result<Vec<String>, InvalidSymbol>)
    requires
        alphabet@.len() > 0,
    ensures
        r is Ok <==> tokenize_spec(alphabet.deep_view(), s@) is Ok,
        r matches Ok(v) ==> tokenize_spec(alphabet.deep_view(), s@) == Ok::<_, Seq<char>>(
            v.deep_view(),
        ),
        r matches Err(e) ==> tokenize_spec(alphabet.deep_view(), s@) == Err::<Seq<Seq<char>>, _>(
            e.text@,
        ) && e.alphabet.deep_view() == alphabet.deep_view(),
{
    let ghost alpha = alphabet.deep_view();
    // build the trie holding exactly the alphabet's symbols
    let mut tree = PatriciaNode::new(alphabet[0].as_str());
    proof {
        assert(alphabet.deep_view()[0] == alphabet@[0]@);
    }
    let mut i: usize = 1;
    while i < alphabet.len()
        invariant
            alpha == alphabet.deep_view(),
            1 <= i <= alphabet@.len(),
            tree.wf(),
            forall|w: Seq<char>|
                tree.spells(w) <==> exists|j: int| 0 <= j < i && alpha[j] == w,
        decreases alphabet@.len() - i,
    {
        let ghost pre = tree;
        let dup = tree.insert(alphabet[i].as_str());
        proof {
            assert(alpha[i as int] == alphabet@[i as int]@);
            if dup is Err {
                assert(tree == pre);
            }
            assert forall|w: Seq<char>|
                tree.spells(w) <==> exists|j: int| 0 <= j < i + 1 && alpha[j] == w by {
                if tree.spells(w) {
                    assert(pre.spells(w) || w == alpha[i as int]);
                }
                if exists|j: int| 0 <= j < i + 1 && alpha[j] == w {
                    let j = choose|j: int| 0 <= j < i + 1 && alpha[j] == w;
                    if j < i {
                        assert(pre.spells(w));
                    }
                    assert(tree.spells(w));
                }
            }
        }
        i += 1;
    }
    proof {
        assert forall|w: Seq<char>| tree.spells(w) <==> alpha.contains(w) by {
            if alpha.contains(w) {
                let j = choose|j: int| 0 <= j < alpha.len() && alpha[j] == w;
                assert(tree.spells(w));
            }
        }
    }

    let n = s.unicode_len();
    let mut cursor: usize = 0;
    let mut out: Vec<String> = Vec::new();
    proof {
        assert(s@.skip(0) =~= s@);
        assert(out.deep_view() =~= Seq::<Seq<char>>::empty());
        if tokenize_spec(alpha, s@) is Ok {
            assert(Seq::<Seq<char>>::empty() + tokenize_spec(alpha, s@)->Ok_0 =~= tokenize_spec(
                alpha,
                s@,
            )->Ok_0);
        }
    }
    while cursor < n
        invariant
            alpha == alphabet.deep_view(),
            alpha.len() > 0,
            n == s@.len(),
            cursor <= n,
            tree.wf(),
            forall|w: Seq<char>| tree.spells(w) <==> alpha.contains(w),
            tokenize_spec(alpha, s@) == tok_prepend(
                out.deep_view(),
                tokenize_spec(alpha, s@.skip(cursor as int)),
            ),
        decreases n - cursor,
    {
        let ghost rem = s@.skip(cursor as int);
        // longest alphabet symbol starting at the cursor
        let mut best: usize = 0;
        let mut k: usize = 0;
        while k < n - cursor
            invariant
                k <= n - cursor,
                best == match_len(alpha, rem, k as nat),
            decreases n - cursor - k,
        {
            let probe = s.substring_char(cursor, cursor + k + 1);
            proof {
                assert(probe@ =~= rem.take(k + 1));
            }
            if tree.search(probe) {
                best = k + 1;
                proof {
                    assert(alpha.contains(rem.take(k + 1)));
                    assert(k + 1 <= rem.len());
                    assert(match_len(alpha, rem, (k + 1) as nat) == (k + 1) as nat);
                }
            } else {
                proof {
                    assert(!alpha.contains(rem.take(k + 1)));
                    assert(match_len(alpha, rem, (k + 1) as nat) == match_len(alpha, rem, k as nat));
                }
            }
            k += 1;
        }
        proof {
            assert(rem.len() == n - cursor);
            assert(best as nat == longest_match(alpha, rem));
            lemma_match_len(alpha, rem, rem.len());
            assert(best <= rem.len());
            assert(rem.len() > 0);
        }
        if best == 0 {
            // no symbol starts here: find the shortest dead prefix
            let mut j: usize = 1;
            while j < n - cursor
                invariant
                    alpha == alphabet.deep_view(),
                    n == s@.len(),
                    cursor < n,
                    rem == s@.skip(cursor as int),
                    1 <= j <= n - cursor,
                    off_len(alpha, rem, 1) == off_len(alpha, rem, j as nat),
                decreases n - cursor - j,
            {
                let probe = s.substring_char(cursor, cursor + j);
                proof {
                    assert(probe@ =~= rem.take(j as int));
                }
                if !is_live(alphabet, probe) {
                    proof {
                        assert(off_len(alpha, rem, j as nat) == j as nat);
                        assert(offending(alpha, rem) == rem.take(j as int));
                    }
                    return Err(
                        InvalidSymbol {
                            text: probe.to_owned(),
                            alphabet: clone_string_vec(alphabet),
                        },
                    );
                }
                j += 1;
            }
            // the whole remainder is still the beginning of some symbol
            let text = s.substring_char(cursor, n).to_owned();
            proof {
                assert(off_len(alpha, rem, j as nat) == rem.len());
                assert(offending(alpha, rem) == rem.take(rem.len() as int));
                assert(rem.take(rem.len() as int) =~= rem);
                assert(text@ =~= rem);
            }
            return Err(InvalidSymbol { text, alphabet: clone_string_vec(alphabet) });
        }
        // emit the longest match and advance
        let tok = s.substring_char(cursor, cursor + best).to_owned();
        proof {
            assert(tok@ =~= rem.take(best as int));
        }
        let ghost out_pre = out.deep_view();
        out.push(tok);
        proof {
            assert(out.deep_view() =~= out_pre.push(rem.take(best as int)));
            assert(rem.skip(best as int) =~= s@.skip((cursor + best) as int));
            let r_next = tokenize_spec(alpha, s@.skip((cursor + best) as int));
            assert(tokenize_spec(alpha, rem) == tok_prepend(
                seq![rem.take(best as int)],
                r_next,
            ));
            match r_next {
                Ok(x) => {
                    assert(out_pre + (seq![rem.take(best as int)] + x) =~= out.deep_view() + x);
                },
                Err(_) => {},
            }
        }
        cursor += best;
    }
    proof {
        assert(s@.skip(n as int).len() == 0);
        assert(tokenize_spec(alpha, s@.skip(cursor as int)) == Ok::<_, Seq<char>>(
            Seq::<Seq<char>>::empty(),
        ));
        assert(out.deep_view() + Seq::<Seq<char>>::empty() =~= out.deep_view());
    }
    Ok(out)
}

} // verus!
