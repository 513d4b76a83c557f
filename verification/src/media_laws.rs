//! What holds of all paths, file names and the languages in them.

use crate::media;
use crate::text;
use crate::text_laws;
use vstd::prelude::*;

verus! {

/// Whether a word is the characters `from..to` of a text, all of them alphanumeric, with a
/// character that is not, or an end of the text, on each side.
pub open spec fn is_word(s: Seq<char>, w: Seq<char>, from: int, to: int) -> bool {
    &&& 0 <= from <= to <= s.len()
    &&& w == s.subrange(from, to)
    &&& forall|i: int| from <= i < to ==> text::is_alphanumeric(#[trigger] s[i])
    &&& from == 0 || !text::is_alphanumeric(s[from - 1])
    &&& to == s.len() || !text::is_alphanumeric(s[to])
}

/// Where a text has no alphanumeric character.
pub open spec fn gaps(s: Seq<char>) -> Seq<bool> {
    Seq::new(s.len(), |i: int| !text::is_alphanumeric(s[i]))
}

proof fn lemma_words(s: Seq<char>)
    ensures
        media::words_of(s) == text::pieces(s, gaps(s)),
{
    assert(gaps(s) =~= s.map_values(|c: char| !text::is_alphanumeric(c)));
}

/// Words consist of alphanumeric characters and are parted by all others.
pub proof fn law_word_bounds(s: Seq<char>, k: int)
    requires
        0 <= k < media::words_of(s).len(),
    ensures
        exists|from: int, to: int| #[trigger] is_word(s, media::words_of(s)[k], from, to),
{
    lemma_words(s);
    text_laws::law_piece_bounds(s, gaps(s), k);
    let w = media::words_of(s)[k];
    let (from, to) = choose|from: int, to: int| #[trigger]
        text_laws::is_piece(s, gaps(s), w, from, to);
    assert forall|i: int| from <= i < to implies text::is_alphanumeric(#[trigger] s[i]) by {
        assert(!gaps(s)[i]);
    }
    assert(is_word(s, w, from, to));
}

/// A text of alphanumeric characters is one word.
pub proof fn law_one_word(s: Seq<char>)
    requires
        forall|i: int| 0 <= i < s.len() ==> text::is_alphanumeric(#[trigger] s[i]),
    ensures
        media::words_of(s) == seq![s],
{
    lemma_words(s);
    text_laws::law_pieces_whole(s, gaps(s));
}

/// A character that is not alphanumeric parts words: those before it, then those after.
pub proof fn law_words_parted(a: Seq<char>, c: char, b: Seq<char>)
    requires
        !text::is_alphanumeric(c),
    ensures
        media::words_of(a.push(c) + b) == media::words_of(a) + media::words_of(b),
{
    let s = a.push(c) + b;
    lemma_words(s);
    lemma_words(a);
    lemma_words(b);
    assert(gaps(s) =~= gaps(a).push(true) + gaps(b));
    text_laws::law_pieces_parted(a, c, b, gaps(a), gaps(b));
}

/// Whether no word of a text stands for a language.
pub open spec fn says_no_language(s: Seq<char>) -> bool {
    forall|k: int|
        0 <= k < media::words_of(s).len() ==> media::language_of(#[trigger] media::words_of(s)[k])
            is None
}

proof fn lemma_first_language_concat(a: Seq<Seq<char>>, b: Seq<Seq<char>>)
    requires
        forall|k: int| 0 <= k < a.len() ==> media::language_of(#[trigger] a[k]) is None,
    ensures
        media::first_language(a + b) == media::first_language(b),
    decreases a.len(),
{
    if a.len() == 0 {
        assert(a + b =~= b);
    } else {
        assert((a + b)[0] == a[0]);
        assert((a + b).drop_first() =~= a.drop_first() + b);
        assert forall|k: int| 0 <= k < a.drop_first().len() implies media::language_of(
            #[trigger] a.drop_first()[k],
        ) is None by {
            assert(a.drop_first()[k] == a[k + 1]);
        }
        lemma_first_language_concat(a.drop_first(), b);
    }
}

/// The lower-case form of the name of a file without its extension.
pub open spec fn low_name(path: Seq<u8>) -> Seq<char> {
    text::lower_case(vstd::utf8::decode_utf8(media::file_stem(path)->0))
}

/// Whether a file has a name that is valid UTF-8.
pub open spec fn is_named(path: Seq<u8>) -> bool {
    media::file_stem(path) is Some && vstd::utf8::valid_utf8(media::file_stem(path)->0)
}

/// A word that stands for a language, parted from the rest of the name by characters that
/// are not alphanumeric, gives the language of a file, unless a word before it does.
pub proof fn law_language_word(
    path: Seq<u8>,
    before: Seq<char>,
    word: Seq<char>,
    after: Seq<char>,
    code: Seq<char>,
)
    requires
        is_named(path),
        low_name(path) == before + word + after,
        before.len() == 0 || !text::is_alphanumeric(before.last()) && says_no_language(
            before.drop_last(),
        ),
        forall|i: int| 0 <= i < word.len() ==> text::is_alphanumeric(#[trigger] word[i]),
        after.len() == 0 || !text::is_alphanumeric(after.first()),
        media::language_of(word) == Some(code),
    ensures
        media::name_language(path) == Some(code),
{
    let rest = word + after;
    let low = low_name(path);
    law_one_word(word);
    if after.len() > 0 {
        law_words_parted(word, after.first(), after.drop_first());
        assert(word.push(after.first()) + after.drop_first() =~= rest);
    } else {
        assert(rest =~= word);
    }
    assert(media::words_of(rest)[0] == word);
    assert(media::first_language(media::words_of(rest)) == Some(code));
    if before.len() > 0 {
        let front = before.drop_last();
        law_words_parted(front, before.last(), rest);
        assert(front.push(before.last()) + rest =~= low);
        lemma_first_language_concat(media::words_of(front), media::words_of(rest));
    } else {
        assert(low =~= rest);
    }
}

/// A name none of whose words stands for a language gives none, and neither does one that
/// is not valid UTF-8 or is missing.
pub proof fn law_no_language(path: Seq<u8>)
    requires
        is_named(path) ==> says_no_language(low_name(path)),
    ensures
        media::name_language(path) is None,
{
    if is_named(path) {
        let words = media::words_of(low_name(path));
        lemma_first_language_concat(words, Seq::empty());
        assert(words + Seq::<Seq<char>>::empty() =~= words);
        assert(media::first_language(Seq::empty()) is None);
    }
}

/// The words that stand for languages, with their codes.
pub open spec fn language_words() -> Seq<(Seq<char>, Seq<char>)> {
    seq![
        ("zh"@, "zh"@),
        ("chinese"@, "zh"@),
        ("cn"@, "zh"@),
        ("mandarin"@, "zh"@),
        ("cantonese"@, "zh"@),
        ("ja"@, "ja"@),
        ("jp"@, "ja"@),
        ("japanese"@, "ja"@),
        ("en"@, "en"@),
        ("english"@, "en"@),
        ("ko"@, "ko"@),
        ("korean"@, "ko"@),
        ("fr"@, "fr"@),
        ("french"@, "fr"@),
        ("de"@, "de"@),
        ("german"@, "de"@),
        ("es"@, "es"@),
        ("spanish"@, "es"@),
        ("ru"@, "ru"@),
        ("russian"@, "ru"@),
    ]
}

/// No other words stand for languages.
pub proof fn law_only_language_words(word: Seq<char>, code: Seq<char>)
    requires
        media::language_of(word) == Some(code),
    ensures
        language_words().contains((word, code)),
{
    let t = language_words();
    assert(t[0] == ("zh"@, "zh"@) && t[1] == ("chinese"@, "zh"@) && t[2] == ("cn"@, "zh"@));
    assert(t[3] == ("mandarin"@, "zh"@) && t[4] == ("cantonese"@, "zh"@));
    assert(t[5] == ("ja"@, "ja"@) && t[6] == ("jp"@, "ja"@) && t[7] == ("japanese"@, "ja"@));
    assert(t[8] == ("en"@, "en"@) && t[9] == ("english"@, "en"@));
    assert(t[10] == ("ko"@, "ko"@) && t[11] == ("korean"@, "ko"@));
    assert(t[12] == ("fr"@, "fr"@) && t[13] == ("french"@, "fr"@));
    assert(t[14] == ("de"@, "de"@) && t[15] == ("german"@, "de"@));
    assert(t[16] == ("es"@, "es"@) && t[17] == ("spanish"@, "es"@));
    assert(t[18] == ("ru"@, "ru"@) && t[19] == ("russian"@, "ru"@));
}

/// Whether an extension is one of video files or of audio files.
pub open spec fn is_known_extension(e: Seq<char>) -> bool {
    ||| e == "mp4"@ || e == "mkv"@ || e == "mov"@ || e == "avi"@ || e == "webm"@ || e == "m4v"@
    ||| e == "mpg"@ || e == "mpeg"@ || e == "ts"@ || e == "m2ts"@ || e == "flv"@
    ||| e == "mp3"@ || e == "wav"@ || e == "flac"@ || e == "m4a"@ || e == "aac"@ || e == "opus"@
    ||| e == "ogg"@ || e == "oga"@ || e == "wma"@ || e == "amr"@
}

/// By default the extensions of video files and audio files are taken, and no others.
pub proof fn law_default_extensions(e: Seq<char>)
    ensures
        media::default_extension_list().contains(e) <==> is_known_extension(e),
{
    let l = media::default_extension_list();
    assert(l[0] == "mp4"@ && l[1] == "mkv"@ && l[2] == "mov"@ && l[3] == "avi"@ && l[4] == "webm"@);
    assert(l[5] == "m4v"@ && l[6] == "mpg"@ && l[7] == "mpeg"@ && l[8] == "ts"@ && l[9] == "m2ts"@);
    assert(l[10] == "flv"@ && l[11] == "mp3"@ && l[12] == "wav"@ && l[13] == "flac"@);
    assert(l[14] == "m4a"@ && l[15] == "aac"@ && l[16] == "opus"@ && l[17] == "ogg"@);
    assert(l[18] == "oga"@ && l[19] == "wma"@ && l[20] == "amr"@);
}

/// Whether bytes hold no slash.
pub open spec fn no_slash(b: Seq<u8>) -> bool {
    forall|i: int| 0 <= i < b.len() ==> #[trigger] b[i] != 0x2f
}

/// Whether bytes hold no dot.
pub open spec fn no_dot(b: Seq<u8>) -> bool {
    forall|i: int| 0 <= i < b.len() ==> #[trigger] b[i] != 0x2e
}

/// Whether bytes can stand before a file name: nothing, or what ends in a slash.
pub open spec fn is_folder(b: Seq<u8>) -> bool {
    b.len() == 0 || b.last() == 0x2f
}

/// Whether bytes are a name of a file, and not `.` or `..`.
pub open spec fn is_name(b: Seq<u8>) -> bool {
    &&& b.len() > 0
    &&& no_slash(b)
    &&& b != seq![0x2eu8]
    &&& b != seq![0x2eu8, 0x2eu8]
}

proof fn lemma_named_path(folder: Seq<u8>, name: Seq<u8>)
    requires
        is_folder(folder),
        is_name(name),
    ensures
        media::file_span(folder + name) == Some(
            (folder.len() as int, (folder + name).len() as int),
        ),
        (folder + name).subrange(folder.len() as int, (folder + name).len() as int) == name,
{
    let path = folder + name;
    let at = folder.len() as int;
    media::lemma_component_start(path);
    let start = media::component_start(path);
    assert(path.last() == name.last());
    assert(start == at) by {
        if start < at {
            assert(path[at - 1] == folder.last());
        } else if start > at {
            assert(path[start - 1] == name[start - 1 - at]);
        }
    }
    assert(path.skip(at) =~= name);
    assert(path.subrange(at, path.len() as int) =~= name);
}

proof fn lemma_dot(stem: Seq<u8>, ext: Seq<u8>)
    requires
        no_dot(ext),
    ensures
        media::last_dot(stem.push(0x2e) + ext) == stem.len(),
{
    let name = stem.push(0x2e) + ext;
    media::lemma_last_dot(name);
    let d = media::last_dot(name);
    assert(name[stem.len() as int] == 0x2e);
    if d > stem.len() {
        assert(name[d] == ext[d - stem.len() - 1]);
    }
}

/// A file name is its stem, a dot and its extension; its subtitles are in the same folder,
/// with the same stem and the extension `srt`.
#[verifier::spinoff_prover]
pub proof fn law_path_with_extension(folder: Seq<u8>, stem: Seq<u8>, ext: Seq<u8>)
    requires
        is_folder(folder),
        stem.len() > 0,
        no_slash(stem),
        stem != seq![0x2eu8],
        no_slash(ext),
        no_dot(ext),
    ensures
        ({
            let path = folder + (stem.push(0x2e) + ext);
            &&& media::file_stem(path) == Some(stem)
            &&& media::extension(path) == Some(ext)
            // ".srt"
            &&& media::srt_path(path) == folder + (stem + seq![0x2eu8, 0x73u8, 0x72u8, 0x74u8])
        }),
{
    let name = stem.push(0x2e) + ext;
    let path = folder + name;
    assert(name[0] == stem[0]);
    assert forall|i: int| 0 <= i < name.len() implies #[trigger] name[i] != 0x2f by {
        if i < stem.len() {
            assert(name[i] == stem[i]);
        } else if i > stem.len() {
            assert(name[i] == ext[i - stem.len() - 1]);
        }
    }
    assert(name != seq![0x2eu8, 0x2eu8]) by {
        if name == seq![0x2eu8, 0x2eu8] {
            assert(stem =~= seq![0x2eu8]);
        }
    }
    lemma_named_path(folder, name);
    lemma_dot(stem, ext);
    assert(name.take(stem.len() as int) =~= stem);
    assert(name.skip(stem.len() as int + 1) =~= ext);
    assert(!media::ends_in_dots(path)) by {
        if media::ends_in_dots(path) {
            assert(path[folder.len() as int] == name[0]);
            assert(stem =~= seq![0x2eu8]);
        }
    }
    assert(media::file_name(path) == Some(name));
    assert(media::stem_len(name) == stem.len());
    let kept = path.take(folder.len() as int + stem.len() as int);
    assert(kept =~= folder + stem);
    assert(media::srt_path(path) == kept + media::srt_suffix());
    assert(kept + media::srt_suffix() =~= folder + (stem + media::srt_suffix()));
}

/// A file name without a dot, but for one at its start, has no extension; its subtitles
/// have the extension `srt` added.
pub proof fn law_path_without_extension(folder: Seq<u8>, name: Seq<u8>)
    requires
        is_folder(folder),
        is_name(name),
        no_dot(name.drop_first()),
    ensures
        media::file_stem(folder + name) == Some(name),
        media::extension(folder + name) is None,
        media::srt_path(folder + name) == folder + name + seq![0x2eu8, 0x73u8, 0x72u8, 0x74u8],
{
    lemma_named_path(folder, name);
    media::lemma_last_dot(name);
    let d = media::last_dot(name);
    if d > 0 {
        assert(name.drop_first()[d - 1] == name[d]);
    }
    assert(name.take(name.len() as int) =~= name);
    let path = folder + name;
    assert(path.take(path.len() as int) =~= path);
    assert(media::srt_path(path) =~= path + seq![0x2eu8, 0x73u8, 0x72u8, 0x74u8]);
}

/// A slash at the end of a path, and a dot after it, do not change its file name; a path
/// that ends in two dots has none.
pub proof fn law_path_end(path: Seq<u8>)
    ensures
        media::file_name(path.push(0x2f)) == media::file_name(path),
        media::file_name(path.push(0x2f).push(0x2e)) == media::file_name(path),
        media::file_name(path.push(0x2f).push(0x2e).push(0x2e)) is None,
{
    let a = path.push(0x2f);
    let b = a.push(0x2e);
    let c = b.push(0x2e);
    media::lemma_file_span(path);
    assert(a.drop_last() =~= path);
    assert(b.drop_last() =~= a);
    assert(c.drop_last() =~= b);
    assert(media::component_start(a) == a.len());
    assert(media::component_start(b) == a.len());
    assert(media::component_start(c) == a.len());
    assert(b.skip(a.len() as int) =~= seq![0x2eu8]);
    assert(c.skip(a.len() as int) =~= seq![0x2eu8, 0x2eu8]);
    if let Some((from, to)) = media::file_span(path) {
        assert(a.subrange(from, to) =~= path.subrange(from, to));
        assert(b.subrange(from, to) =~= path.subrange(from, to));
    }
}

/// Whether two bytes are equal or the same letter in different cases.
pub open spec fn same_letter(a: u8, b: u8) -> bool {
    ||| a == b
    ||| 0x41 <= a <= 0x5a && b == a + 32
    ||| 0x41 <= b <= 0x5a && a == b + 32
}

/// Whether extensions are the same but for the case of letters.
pub open spec fn same_extension(a: Seq<u8>, b: Seq<u8>) -> bool {
    a.len() == b.len() && forall|i: int| 0 <= i < a.len() ==> same_letter(#[trigger] a[i], b[i])
}

/// A file is taken exactly if its extension is one of the list, in either case.
pub proof fn law_has_extension(path: Seq<u8>, exts: Seq<Seq<char>>)
    ensures
        media::has_extension(path, exts) <==> media::extension(path) is Some && exists|i: int|
            0 <= i < exts.len() && same_extension(
                vstd::utf8::encode_utf8(#[trigger] exts[i]),
                media::extension(path)->0,
            ),
{
    let e = media::extension(path)->0;
    assert forall|i: int| 0 <= i < exts.len() implies (media::same_but_case(
        vstd::utf8::encode_utf8(#[trigger] exts[i]),
        e,
    ) <==> same_extension(vstd::utf8::encode_utf8(exts[i]), e)) by {
        let x = vstd::utf8::encode_utf8(exts[i]);
        assert forall|j: int| 0 <= j < x.len() implies (media::lower_byte(#[trigger] x[j])
            == media::lower_byte(e[j]) <==> same_letter(x[j], e[j])) by {}
    }
}

proof fn lemma_some_part(path: Seq<u8>)
    ensures
        media::parts(path).len() > 0,
    decreases path.len(),
{
    if path.len() > 0 {
        lemma_some_part(path.drop_last());
    }
}

/// A slash parts a path: the parts before it, then those after.
pub proof fn law_parts(a: Seq<u8>, b: Seq<u8>)
    ensures
        media::parts(a.push(0x2f) + b) == media::parts(a) + media::parts(b),
        no_slash(b) ==> media::parts(b) == seq![b],
    decreases b.len(),
{
    let path = a.push(0x2f) + b;
    lemma_some_part(a);
    if b.len() == 0 {
        assert(path.drop_last() =~= a);
        assert(media::parts(path) =~= media::parts(a) + media::parts(b));
        assert(b =~= Seq::empty());
    } else {
        let front = b.drop_last();
        law_parts(a, front);
        lemma_some_part(front);
        assert(path.drop_last() =~= a.push(0x2f) + front);
        assert(media::parts(path) =~= media::parts(a) + media::parts(b));
        if no_slash(b) {
            assert(b.last() == b[b.len() - 1]);
            assert(no_slash(front)) by {
                assert forall|i: int| 0 <= i < front.len() implies #[trigger] front[i] != 0x2f by {
                    assert(front[i] == b[i]);
                }
            }
            assert(front.push(b.last()) =~= b);
            assert(media::parts(b) =~= seq![b]);
        }
    }
}

/// What parts count for the order of paths, from part `first` on.
spec fn keys_from(first: int, parts: Seq<Seq<u8>>) -> Seq<int>
    decreases parts.len(),
{
    if parts.len() == 0 {
        Seq::empty()
    } else {
        keys_from(first, parts.drop_last()) + media::part_key(
            first + parts.len() - 1,
            parts.last(),
        )
    }
}

proof fn lemma_keys_from(a: Seq<Seq<u8>>, b: Seq<Seq<u8>>)
    ensures
        media::parts_key(a + b) == media::parts_key(a) + keys_from(a.len() as int, b),
    decreases b.len(),
{
    if b.len() == 0 {
        assert(a + b =~= a);
        assert(media::parts_key(a) + keys_from(a.len() as int, b) =~= media::parts_key(a));
    } else {
        lemma_keys_from(a, b.drop_last());
        assert((a + b).drop_last() =~= a + b.drop_last());
        let k = media::part_key(a.len() + b.len() - 1, b.last());
        assert(media::parts_key(a) + keys_from(a.len() as int, b.drop_last()) + k
            =~= media::parts_key(a) + (keys_from(a.len() as int, b.drop_last()) + k));
    }
}

/// Whether bytes come before others in the order of a dictionary: where they first differ
/// the byte is smaller, or there is none.
pub open spec fn bytes_before(a: Seq<u8>, b: Seq<u8>) -> bool {
    exists|k: int| #[trigger] differ_at(a, b, k)
}

/// Whether bytes agree up to `k`, and there the first ones end or have the smaller byte.
pub open spec fn differ_at(a: Seq<u8>, b: Seq<u8>, k: int) -> bool {
    &&& 0 <= k <= a.len()
    &&& k < b.len()
    &&& a.take(k) == b.take(k)
    &&& k < a.len() ==> a[k] < b[k]
}

/// Whether a path comes before another one and not after it.
pub open spec fn path_before(a: Seq<u8>, b: Seq<u8>) -> bool {
    &&& media::not_after(media::path_key(a), media::path_key(b))
    &&& !media::not_after(media::path_key(b), media::path_key(a))
}

proof fn lemma_strictly_before(a: Seq<int>, b: Seq<int>, k: int)
    requires
        0 <= k < b.len(),
        k <= a.len(),
        forall|i: int| 0 <= i < k ==> #[trigger] a[i] == b[i],
        k < a.len() ==> a[k] < b[k],
    ensures
        media::not_after(a, b),
        !media::not_after(b, a),
    decreases k,
{
    if k > 0 {
        assert(a[0] == b[0]);
        assert forall|i: int| 0 <= i < k - 1 implies #[trigger] a.drop_first()[i]
            == b.drop_first()[i] by {
            assert(a[i + 1] == b[i + 1]);
        }
        lemma_strictly_before(a.drop_first(), b.drop_first(), k - 1);
    }
}

/// What follows a name in a path: nothing, or a slash and more.
pub open spec fn is_rest(b: Seq<u8>) -> bool {
    b.len() == 0 || b[0] == 0x2f
}

/// The key of a path begins with that of its folder, then that of the name after it.
proof fn lemma_key_of_named(folder: Seq<u8>, name: Seq<u8>, rest: Seq<u8>) -> (r: (
    Seq<int>,
    Seq<int>,
))
    requires
        is_folder(folder),
        is_name(name),
        is_rest(rest),
    ensures
        media::path_key(folder + name + rest) == r.0 + (seq![4int] + media::raised(name) + seq![
            0int,
        ]) + r.1,
        r.0 == folder_key(folder),
{
    let path = folder + name + rest;
    let tail = name + rest;
    let named = seq![4int] + media::raised(name) + seq![0int];
    assert(path =~= folder + tail);
    law_parts(Seq::empty(), name);
    // the parts from the name on
    let more: Seq<Seq<u8>> = if rest.len() > 0 {
        media::parts(rest.drop_first())
    } else {
        Seq::empty()
    };
    assert(media::parts(tail) =~= seq![name] + more) by {
        if rest.len() > 0 {
            law_parts(name, rest.drop_first());
            assert(name.push(0x2f) + rest.drop_first() =~= tail);
        } else {
            assert(tail =~= name);
        }
    }
    let before: Seq<Seq<u8>> = if folder.len() > 0 {
        media::parts(folder.drop_last())
    } else {
        Seq::empty()
    };
    assert(media::parts(path) =~= before + (seq![name] + more)) by {
        if folder.len() > 0 {
            law_parts(folder.drop_last(), tail);
            assert(folder.drop_last().push(0x2f) + tail =~= path);
        } else {
            assert(path =~= tail);
        }
    }
    let n = before.len() as int;
    assert(before + (seq![name] + more) =~= (before.push(name)) + more);
    lemma_keys_from(before.push(name), more);
    assert(before.push(name).drop_last() =~= before);
    assert(media::part_key(n, name) == named);
    let last = keys_from(n + 1, more);
    assert(media::parts_key(before.push(name)) == media::parts_key(before) + named);
    let root: Seq<int> = if path[0] == 0x2f {
        seq![1int]
    } else {
        Seq::empty()
    };
    assert(folder.len() > 0 ==> path[0] == folder[0]);
    assert(folder.len() == 0 ==> path[0] == name[0]);
    assert(root =~= folder_root(folder));
    assert(media::path_key(path) == root + (media::parts_key(before) + named + last));
    assert(root + (media::parts_key(before) + named + last) =~= (root + media::parts_key(before))
        + named + last);
    (root + media::parts_key(before), last)
}

spec fn folder_root(folder: Seq<u8>) -> Seq<int> {
    if folder.len() > 0 && folder[0] == 0x2f {
        seq![1int]
    } else {
        Seq::empty()
    }
}

/// What a folder counts for the order of the paths in it.
spec fn folder_key(folder: Seq<u8>) -> Seq<int> {
    folder_root(folder) + if folder.len() > 0 {
        media::parts_key(media::parts(folder.drop_last()))
    } else {
        Seq::empty()
    }
}

/// In one folder, paths are ordered by the names in it, byte by byte, whatever follows
/// these.
pub proof fn law_siblings_by_name(
    folder: Seq<u8>,
    a: Seq<u8>,
    a_rest: Seq<u8>,
    b: Seq<u8>,
    b_rest: Seq<u8>,
)
    requires
        is_folder(folder),
        is_name(a),
        is_name(b),
        is_rest(a_rest),
        is_rest(b_rest),
        bytes_before(a, b),
    ensures
        path_before(folder + a + a_rest, folder + b + b_rest),
{
    let (head, a_tail) = lemma_key_of_named(folder, a, a_rest);
    let (head2, b_tail) = lemma_key_of_named(folder, b, b_rest);
    let x = media::path_key(folder + a + a_rest);
    let y = media::path_key(folder + b + b_rest);
    let k = choose|k: int| #[trigger] differ_at(a, b, k);
    let at = head.len() + 1 + k;
    assert forall|i: int| 0 <= i < at implies #[trigger] x[i] == y[i] by {
        if i > head.len() {
            let j = i - head.len() - 1;
            assert(a.take(k)[j] == b.take(k)[j]);
            assert(media::raised(a)[j] == media::raised(b)[j]);
        }
    }
    assert(y[at] == media::raised(b)[k]);
    if k < a.len() {
        assert(x[at] == media::raised(a)[k]);
    } else {
        assert(x[at] == 0);
    }
    lemma_strictly_before(x, y, at);
}

/// Paths in a folder come after the folder itself.
pub proof fn law_folder_first(path: Seq<u8>, name: Seq<u8>, rest: Seq<u8>)
    requires
        is_name(name),
        is_rest(rest),
        path.len() > 0,
    ensures
        path_before(path, path.push(0x2f) + name + rest),
{
    let folder = path.push(0x2f);
    let (head, tail) = lemma_key_of_named(folder, name, rest);
    assert(folder.drop_last() =~= path);
    assert(folder[0] == path[0]);
    let x = media::path_key(path);
    let y = media::path_key(folder + name + rest);
    assert(x == head);
    lemma_strictly_before(x, y, x.len() as int);
}

} // verus!
