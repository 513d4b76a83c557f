//! Which language a file is in, by a vote over transcriptions of parts of it.

use crate::double;
use crate::media;
use crate::text;
use vstd::prelude::*;

verus! {

/// Fewer characters than this, white space aside, are not looked at.
pub const MIN_TEXT_CHARS: usize = 10;

/// 0.05 in double precision: guesses below this confidence do not count.
pub const MIN_CONFIDENCE: u64 = 0x3fa9_9999_9999_999a;

/// A guess at the language of a text: its ISO 639-3 code, and how sure it is, in
/// double precision.
pub struct Detection {
    pub lang: String,
    pub confidence: u64,
}

/// What is detected of a text: a language code and a confidence, or nothing.
pub uninterp spec fn detected(text: Seq<char>) -> Option<(Seq<char>, u64)>;

/// A guess, if there is one, as its parts.
pub open spec fn guess(d: Option<Detection>) -> Option<(Seq<char>, u64)> {
    match d {
        Some(x) => Some((x.lang@, x.confidence)),
        None => None,
    }
}

/// `whatlang::detect` guesses the language of a text from its script, its letters
/// and its trigrams; the text alone decides the guess.  Of it, the code of the
/// language (`Info::lang`, `Lang::code`) and the confidence (`Info::confidence`)
/// are kept.  Trigrams are counted in 32 bits, and lower case can triple the
/// length of a text, hence the bound.
#[verifier::external_body]
pub(crate) fn detect(text: &str) -> (d: Option<Detection>)
    requires
        text@.len() <= 0x4000_0000,
    ensures
        guess(d) == detected(text@),
{
    match whatlang::detect(text) {
        Some(info) => Some(
            Detection {
                lang: info.lang().code().to_owned(),
                confidence: info.confidence().to_bits(),
            },
        ),
        None => None,
    }
}

/// The ISO 639-1 code of a supported language, given its ISO 639-3 code.
pub open spec fn code_of(lang: Seq<char>) -> Option<Seq<char>> {
    if lang == "cmn"@ {
        Some("zh"@)
    } else if lang == "jpn"@ {
        Some("ja"@)
    } else if lang == "eng"@ {
        Some("en"@)
    } else if lang == "kor"@ {
        Some("ko"@)
    } else if lang == "fra"@ {
        Some("fr"@)
    } else if lang == "deu"@ {
        Some("de"@)
    } else if lang == "spa"@ {
        Some("es"@)
    } else if lang == "rus"@ {
        Some("ru"@)
    } else {
        None
    }
}

/// The ISO 639-1 code of a supported language, given its ISO 639-3 code.
pub fn supported_code(lang: &str) -> (code: Option<&'static str>)
    ensures
        match code {
            Some(c) => code_of(lang@) == Some(c@),
            None => code_of(lang@) is None,
        },
{
    if text::same(lang, "cmn") {
        Some("zh")
    } else if text::same(lang, "jpn") {
        Some("ja")
    } else if text::same(lang, "eng") {
        Some("en")
    } else if text::same(lang, "kor") {
        Some("ko")
    } else if text::same(lang, "fra") {
        Some("fr")
    } else if text::same(lang, "deu") {
        Some("de")
    } else if text::same(lang, "spa") {
        Some("es")
    } else if text::same(lang, "rus") {
        Some("ru")
    } else {
        None
    }
}

/// How many characters are not white space.
pub open spec fn solid_chars(s: Seq<char>) -> nat
    decreases s.len(),
{
    if s.len() == 0 {
        0
    } else {
        solid_chars(s.drop_last()) + if text::is_white_space(s.last()) {
            0nat
        } else {
            1nat
        }
    }
}

fn count_solid_chars(s: &str) -> (n: usize)
    ensures
        n == solid_chars(s@),
{
    let chars = text::chars_of(s);
    let mut n: usize = 0;
    let mut i: usize = 0;
    while i < chars.len()
        invariant
            i <= chars@.len(),
            n <= i,
            n == solid_chars(chars@.take(i as int)),
        decreases chars.len() - i,
    {
        assert(chars@.take(i + 1).drop_last() =~= chars@.take(i as int));
        if !text::white_space(chars[i]) {
            n = n + 1;
        }
        i = i + 1;
    }
    assert(chars@.take(i as int) =~= chars@);
    n
}

/// The vote of a guess: the code of the language, if the confidence is not below
/// `MIN_CONFIDENCE` and the language is supported.
pub open spec fn ballot(d: Option<(Seq<char>, u64)>) -> Option<Seq<char>> {
    match d {
        Some((lang, confidence)) => if double::double_below(confidence, MIN_CONFIDENCE) {
            None
        } else {
            code_of(lang)
        },
        None => None,
    }
}

/// The vote of a guess.
pub fn vote_of(d: &Option<Detection>) -> (vote: Option<String>)
    ensures
        media::holds(vote, ballot(guess(*d))),
{
    match d {
        Some(x) => {
            if double::below(x.confidence, MIN_CONFIDENCE) {
                return None;
            }
            match supported_code(x.lang.as_str()) {
                Some(code) => Some(code.to_owned()),
                None => None,
            }
        },
        None => None,
    }
}

/// The vote of a transcription: that of what is detected of it without the white
/// space around it, if enough is left.
pub open spec fn vote(transcription: Seq<char>) -> Option<Seq<char>> {
    let t = text::trimmed(transcription);
    if solid_chars(t) < MIN_TEXT_CHARS {
        None
    } else {
        ballot(detected(t))
    }
}

/// How often a code was voted for.
pub open spec fn tally(votes: Seq<Option<Seq<char>>>, code: Seq<char>) -> nat
    decreases votes.len(),
{
    if votes.len() == 0 {
        0
    } else {
        tally(votes.drop_last(), code) + if votes.last() == Some(code) {
            1nat
        } else {
            0nat
        }
    }
}

/// Whether no code has more votes than `winner`, which has at least one; there is
/// no winner if nobody voted.  Which of several codes with equally many votes wins
/// is left open.
pub open spec fn wins(votes: Seq<Option<Seq<char>>>, winner: Option<Seq<char>>) -> bool {
    match winner {
        Some(code) => tally(votes, code) > 0 && forall|other: Seq<char>| #[trigger]
            tally(votes, other) <= tally(votes, code),
        None => forall|i: int| 0 <= i < votes.len() ==> (#[trigger] votes[i]) is None,
    }
}

/// Votes as optional texts.
pub open spec fn vote_views(votes: Seq<Option<String>>) -> Seq<Option<Seq<char>>> {
    votes.map_values(
        |v: Option<String>|
            match v {
                Some(s) => Some(s@),
                None => None,
            },
    )
}

fn count_votes(votes: &Vec<Option<String>>, code: &String) -> (n: usize)
    ensures
        n == tally(vote_views(votes@), code@),
{
    let ghost all = vote_views(votes@);
    let mut n: usize = 0;
    let mut i: usize = 0;
    while i < votes.len()
        invariant
            all == vote_views(votes@),
            i <= votes@.len(),
            n <= i,
            n == tally(all.take(i as int), code@),
        decreases votes.len() - i,
    {
        assert(all.take(i + 1).drop_last() =~= all.take(i as int));
        if let Some(v) = &votes[i] {
            if text::same(v.as_str(), code.as_str()) {
                n = n + 1;
            }
        }
        i = i + 1;
    }
    assert(all.take(i as int) =~= all);
    n
}

proof fn lemma_tally(votes: Seq<Option<Seq<char>>>, code: Seq<char>)
    ensures
        tally(votes, code) > 0 <==> exists|i: int|
            0 <= i < votes.len() && #[trigger] votes[i] == Some(code),
    decreases votes.len(),
{
    if votes.len() > 0 {
        let front = votes.drop_last();
        lemma_tally(front, code);
        if votes.last() == Some(code) {
            assert(votes[votes.len() - 1] == Some(code));
        } else if tally(front, code) > 0 {
            let i = choose|i: int| 0 <= i < front.len() && #[trigger] front[i] == Some(code);
            assert(votes[i] == Some(code));
        } else {
            assert forall|i: int| 0 <= i < votes.len() implies #[trigger] votes[i] != Some(
                code,
            ) by {
                if i < front.len() {
                    assert(front[i] == votes[i]);
                }
            }
        }
    }
}

/// A code with the most votes, if there are votes.
pub fn plurality(votes: &Vec<Option<String>>) -> (winner: Option<String>)
    ensures
        exists|w: Option<Seq<char>>|
            media::holds(winner, w) && #[trigger] wins(vote_views(votes@), w),
{
    let ghost all = vote_views(votes@);
    let mut best: Option<String> = None;
    let mut most: usize = 0;
    let mut i: usize = 0;
    while i < votes.len()
        invariant
            all == vote_views(votes@),
            i <= votes@.len(),
            match best {
                Some(b) => most > 0 && most == tally(all, b@),
                None => most == 0,
            },
            forall|k: int|
                #![trigger all[k]]
                0 <= k < i && all[k] is Some ==> tally(all, all[k]->0) <= most && most > 0,
        decreases votes.len() - i,
    {
        if let Some(v) = &votes[i] {
            let n = count_votes(votes, v);
            proof {
                assert(all[i as int] == Some(v@));
                lemma_tally(all, v@);
            }
            if n > most {
                most = n;
                best = Some(v.clone());
            }
        }
        i = i + 1;
    }
    let ghost w: Option<Seq<char>> = if best is Some {
        Some(best->0@)
    } else {
        None
    };
    proof {
        assert(media::holds(best, w));
        if w is Some {
            assert forall|other: Seq<char>| #[trigger] tally(all, other) <= most by {
                lemma_tally(all, other);
                if tally(all, other) > 0 {
                    let k = choose|k: int| 0 <= k < all.len() && #[trigger] all[k] == Some(other);
                }
            }
        }
        assert(wins(all, w));
    }
    best
}

proof fn lemma_trimmed_start_len(s: Seq<char>)
    ensures
        text::trimmed_start(s).len() <= s.len(),
    decreases s.len(),
{
    if s.len() > 0 {
        lemma_trimmed_start_len(s.drop_first());
    }
}

proof fn lemma_trimmed_end_len(s: Seq<char>)
    ensures
        text::trimmed_end(s).len() <= s.len(),
    decreases s.len(),
{
    if s.len() > 0 {
        lemma_trimmed_end_len(s.drop_last());
    }
}

/// The votes of several transcriptions.
pub open spec fn votes_of(texts: Seq<Seq<char>>) -> Seq<Option<Seq<char>>> {
    texts.map_values(|t: Seq<char>| vote(t))
}

/// The texts of several strings.
pub open spec fn str_views(strs: Seq<&str>) -> Seq<Seq<char>> {
    strs.map_values(|s: &str| s@)
}

/// The language that most transcriptions of parts of a file are in, as an ISO 639-1
/// code, or none if no transcription gives a supported language.
pub fn detect_language_code(texts: &[&str]) -> (code: Option<String>)
    requires
        forall|i: int| 0 <= i < texts@.len() ==> (#[trigger] texts@[i])@.len() <= 0x4000_0000,
    ensures
        exists|w: Option<Seq<char>>|
            media::holds(code, w) && #[trigger] wins(votes_of(str_views(texts@)), w),
        code matches Some(c) ==> media::is_supported(c@),
{
    let ghost all = votes_of(str_views(texts@));
    let mut votes: Vec<Option<String>> = Vec::new();
    let mut i: usize = 0;
    while i < texts.len()
        invariant
            all == votes_of(str_views(texts@)),
            i <= texts@.len(),
            forall|k: int| 0 <= k < texts@.len() ==> (#[trigger] texts@[k])@.len() <= 0x4000_0000,
            vote_views(votes@) =~= all.take(i as int),
        decreases texts@.len() - i,
    {
        let t = text::trim(texts[i]);
        let ghost before = votes@;
        proof {
            lemma_trimmed_start_len(texts@[i as int]@);
            lemma_trimmed_end_len(text::trimmed_start(texts@[i as int]@));
        }
        if count_solid_chars(t.as_str()) < MIN_TEXT_CHARS {
            votes.push(None);
        } else {
            let d = detect(t.as_str());
            votes.push(vote_of(&d));
        }
        proof {
            assert(all[i as int] == vote(texts@[i as int]@));
            assert(vote_views(votes@) =~= vote_views(before).push(all[i as int]));
            assert(all.take(i + 1) =~= all.take(i as int).push(all[i as int]));
        }
        i = i + 1;
    }
    assert(vote_views(votes@) =~= all);
    let code = plurality(&votes);
    proof {
        let w = choose|w: Option<Seq<char>>| media::holds(code, w) && #[trigger] wins(all, w);
        if w is Some {
            law_winner_is_supported(str_views(texts@), w->0);
        }
    }
    code
}

/// A language that is detected is one that a file name can give.
pub proof fn law_detected_languages(lang: Seq<char>)
    ensures
        code_of(lang) matches Some(code) ==> media::is_supported(code),
{
}

/// A language that wins a vote is one that a file name can give, by its code.
pub proof fn law_winner_is_supported(texts: Seq<Seq<char>>, code: Seq<char>)
    requires
        wins(votes_of(texts), Some(code)),
    ensures
        media::is_supported(code),
        media::language_of(code) == Some(code),
{
    let votes = votes_of(texts);
    lemma_tally(votes, code);
    let i = choose|i: int| 0 <= i < votes.len() && #[trigger] votes[i] == Some(code);
    assert(vote(texts[i]) == Some(code));
    let (lang, confidence) = detected(text::trimmed(texts[i]))->0;
    law_detected_languages(lang);
    media::law_languages(code);
}

/// Whether one code has more votes than every other, or none has any.
pub open spec fn decisive(votes: Seq<Option<Seq<char>>>) -> bool {
    ||| exists|code: Seq<char>| #[trigger] leads(votes, code)
    ||| forall|i: int| 0 <= i < votes.len() ==> (#[trigger] votes[i]) is None
}

/// Whether a code has votes, and more than every other.
pub open spec fn leads(votes: Seq<Option<Seq<char>>>, code: Seq<char>) -> bool {
    &&& tally(votes, code) > 0
    &&& forall|other: Seq<char>| other != code ==> #[trigger] tally(votes, other) < tally(votes, code)
}

/// Whether a transcription is too short to be looked at.
pub open spec fn is_short(transcription: Seq<char>) -> bool {
    solid_chars(text::trimmed(transcription)) < MIN_TEXT_CHARS
}

proof fn lemma_tally_concat(a: Seq<Option<Seq<char>>>, b: Seq<Option<Seq<char>>>, code: Seq<char>)
    ensures
        tally(a + b, code) == tally(a, code) + tally(b, code),
    decreases b.len(),
{
    if b.len() == 0 {
        assert(a + b =~= a);
    } else {
        lemma_tally_concat(a, b.drop_last(), code);
        assert((a + b).drop_last() =~= a + b.drop_last());
    }
}

/// Taking a vote away takes it off the tally.
proof fn lemma_tally_remove(votes: Seq<Option<Seq<char>>>, k: int, code: Seq<char>)
    requires
        0 <= k < votes.len(),
    ensures
        tally(votes, code) == tally(votes.remove(k), code) + if votes[k] == Some(code) {
            1nat
        } else {
            0nat
        },
{
    let one = seq![votes[k]];
    assert(votes =~= votes.take(k) + one + votes.skip(k + 1));
    assert(votes.remove(k) =~= votes.take(k) + votes.skip(k + 1));
    lemma_tally_concat(votes.take(k) + one, votes.skip(k + 1), code);
    lemma_tally_concat(votes.take(k), one, code);
    lemma_tally_concat(votes.take(k), votes.skip(k + 1), code);
    assert(one.drop_last() =~= Seq::empty());
    assert(tally(one.drop_last(), code) == 0);
}

/// The order of transcriptions does not matter for the tally.
proof fn lemma_tally_reordered(a: Seq<Seq<char>>, b: Seq<Seq<char>>, code: Seq<char>)
    requires
        a.to_multiset() == b.to_multiset(),
    ensures
        tally(votes_of(a), code) == tally(votes_of(b), code),
    decreases a.len(),
{
    a.to_multiset_ensures();
    b.to_multiset_ensures();
    assert(a.len() == b.len());
    if a.len() > 0 {
        let last = a.len() - 1;
        let x = a[last];
        assert(a.contains(x));
        assert(a.to_multiset().count(x) > 0);
        assert(b.contains(x));
        let k = choose|k: int| 0 <= k < b.len() && b[k] == x;
        assert(a.remove(last).to_multiset() == b.remove(k).to_multiset());
        lemma_tally_reordered(a.remove(last), b.remove(k), code);
        lemma_tally_remove(votes_of(a), last, code);
        lemma_tally_remove(votes_of(b), k, code);
        assert(votes_of(a).remove(last) =~= votes_of(a.remove(last)));
        assert(votes_of(b).remove(k) =~= votes_of(b.remove(k)));
    } else {
        assert(votes_of(a) =~= votes_of(b));
    }
}

/// Where the vote is decisive, neither the order of the transcriptions nor further ones
/// that are too short make a difference: the same language wins, or none.
pub proof fn law_decisive_vote(
    texts: Seq<Seq<char>>,
    short: Seq<Seq<char>>,
    others: Seq<Seq<char>>,
    winner: Option<Seq<char>>,
    other_winner: Option<Seq<char>>,
)
    requires
        decisive(votes_of(texts)),
        forall|i: int| 0 <= i < short.len() ==> is_short(#[trigger] short[i]),
        others.to_multiset() == (texts + short).to_multiset(),
        wins(votes_of(texts), winner),
        wins(votes_of(others), other_winner),
    ensures
        winner == other_winner,
        winner matches Some(code) ==> media::is_supported(code),
{
    let votes = votes_of(texts);
    let other_votes = votes_of(others);
    assert forall|code: Seq<char>| #[trigger] tally(other_votes, code) == tally(votes, code) by {
        lemma_tally_reordered(others, texts + short, code);
        assert(votes_of(texts + short) =~= votes + votes_of(short));
        lemma_tally_concat(votes, votes_of(short), code);
        lemma_tally(votes_of(short), code);
        assert forall|i: int| 0 <= i < short.len() implies #[trigger] votes_of(short)[i] is None by {
            assert(is_short(short[i]));
        }
    }
    if winner is Some {
        law_winner_is_supported(texts, winner->0);
        lemma_tally(votes, winner->0);
        lemma_tally(other_votes, winner->0);
        let lead = choose|code: Seq<char>| #[trigger] leads(votes, code);
        assert(leads(votes, lead));
        assert(tally(votes, lead) <= tally(votes, winner->0));
        if other_winner is Some {
            let other = other_winner->0;
            assert(tally(other_votes, lead) <= tally(other_votes, other));
            assert(tally(votes, other) == tally(other_votes, other));
        }
    } else if other_winner is Some {
        lemma_tally(votes, other_winner->0);
        assert(tally(other_votes, other_winner->0) > 0);
    }
}

} // verus!
