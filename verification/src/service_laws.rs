//! What holds of all requests to the server, to ffmpeg and to docker, of their answers,
//! and of every vote.

use crate::asr;
use crate::asr::AsrClient;
use crate::container;
use crate::container::{Launch, LaunchFailure, LaunchStep, ServeSpec};
use crate::device;
use crate::double;
use crate::ffmpeg;
use crate::langdetect;
use crate::text;
use crate::text_laws;
use vstd::prelude::*;

verus! {

/// The address of a path on a server is the address of the server, without slashes at its
/// end, and the path.
pub proof fn law_url(server: Seq<char>, slashes: nat, path: Seq<char>)
    requires
        server.len() == 0 || server.last() != '/',
    ensures
        asr::url(server + Seq::new(slashes, |i: int| '/'), path) == server + path,
    decreases slashes,
{
    let all = server + Seq::new(slashes, |i: int| '/');
    if slashes == 0 {
        assert(all =~= server);
    } else {
        law_url(server, (slashes - 1) as nat, path);
        assert(all.drop_last() =~= server + Seq::new((slashes - 1) as nat, |i: int| '/'));
    }
}

/// A request carries the model and the limit of the client, and its language if it has one.
pub proof fn law_form(client: AsrClient)
    ensures
        ({
            let form = client.form();
            &&& form[0] == ("model"@, client.model@)
            &&& form[1].0 == "max_completion_tokens"@
            &&& text::number(form[1].1) == client.max_tokens
            &&& form.len() == if client.language is Some {
                3int
            } else {
                2int
            }
            &&& client.language matches Some(l) ==> form[2] == ("language"@, l@)
        }),
{
    text::law_decimal_reads_back(client.max_tokens as nat);
}

/// A request was carried out exactly if its status is in the two hundreds.
pub proof fn law_success(status: u16)
    ensures
        asr::is_success(status) <==> status / 100 == 2,
{
}

/// A request that was carried out gives what the body says; nothing else does.
pub proof fn law_transcription(
    status: u16,
    reason: Seq<char>,
    parsed: Result<Option<String>, String>,
    body: Seq<char>,
    result: Option<Result<String, String>>,
)
    requires
        asr::outcome(status, reason, parsed, body, result),
    ensures
        (result is Some && result->0 is Ok) <==> (status / 100 == 2 && parsed is Ok),
        status / 100 == 2 && parsed is Ok ==> match parsed->Ok_0 {
            Some(said) => result->0->Ok_0@ == said@,
            None => result->0->Ok_0@.len() == 0,
        },
{
}

/// A message that begins with `prefix` and then quotes a text: all of it if that takes no
/// more than `n` bytes, and else as much of its start as takes `n` bytes.
pub open spec fn reports(message: Seq<char>, prefix: Seq<char>, s: Seq<char>, n: nat) -> bool {
    let quoted = message.skip(prefix.len() as int);
    &&& prefix.is_prefix_of(message)
    &&& quoted.is_prefix_of(s)
    &&& vstd::utf8::encode_utf8(s).len() <= n ==> quoted == s
    &&& vstd::utf8::encode_utf8(s).len() > n ==> vstd::utf8::encode_utf8(quoted).len() == n
}

proof fn lemma_reports(message: Option<String>, prefix: Seq<char>, s: Seq<char>, n: nat)
    requires
        text::quotes(message, prefix, s, n as int),
    ensures
        message matches Some(m) ==> reports(m@, prefix, s, n),
        message is None ==> vstd::utf8::encode_utf8(s).len() > n && forall|p: Seq<char>| #[trigger]
            p.is_prefix_of(s) ==> vstd::utf8::encode_utf8(p).len() != n,
{
    text_laws::law_quotes(message, prefix, s, n);
    if let Some(m) = message {
        if vstd::utf8::encode_utf8(s).len() <= n {
            assert((prefix + s).skip(prefix.len() as int) =~= s);
        }
    }
}

/// A request that was not carried out gives an error with its status and the first 400
/// bytes of the body, and a body that cannot be read one with the reason and its first 200
/// bytes.
pub proof fn law_transcription_error(
    status: u16,
    reason: Seq<char>,
    parsed: Result<Option<String>, String>,
    body: Seq<char>,
    result: Option<Result<String, String>>,
)
    requires
        asr::outcome(status, reason, parsed, body, result),
    ensures
        status / 100 != 2 ==> match result {
            Some(Ok(_)) => false,
            Some(Err(m)) => reports(m@, "ASR HTTP "@ + reason + ": "@, body, 400),
            None => vstd::utf8::encode_utf8(body).len() > 400 && forall|p: Seq<char>| #[trigger]
                p.is_prefix_of(body) ==> vstd::utf8::encode_utf8(p).len() != 400,
        },
        status / 100 == 2 && parsed is Err ==> match result {
            Some(Ok(_)) => false,
            Some(Err(m)) => reports(
                m@,
                "decode ASR json: "@ + parsed->Err_0@ + " | body: "@,
                body,
                200,
            ),
            None => vstd::utf8::encode_utf8(body).len() > 200 && forall|p: Seq<char>| #[trigger]
                p.is_prefix_of(body) ==> vstd::utf8::encode_utf8(p).len() != 200,
        },
{
    let message = match result {
        Some(Err(m)) => Some(m),
        _ => None,
    };
    if status / 100 != 2 {
        lemma_reports(message, "ASR HTTP "@ + reason + ": "@, body, 400);
    } else if parsed is Err {
        lemma_reports(
            message,
            "decode ASR json: "@ + parsed->Err_0@ + " | body: "@,
            body,
            200,
        );
    }
}

/// What ffmpeg wrote is taken exactly if it succeeded; else the error has the exit code
/// and the first 500 bytes of the complaint, without white space around it.
pub proof fn law_ffmpeg_answer(
    success: bool,
    code: Option<i32>,
    stdout: Vec<u8>,
    complaint: Seq<char>,
    result: Option<Result<Vec<u8>, String>>,
)
    requires
        ffmpeg::answered(success, code, stdout, complaint, result),
    ensures
        success ==> result == Some(Ok::<Vec<u8>, String>(stdout)),
        !success ==> match result {
            Some(Ok(_)) => false,
            Some(Err(m)) => reports(
                m@,
                "ffmpeg failed (exit "@ + ffmpeg::exit_text(code) + "): "@,
                text::trimmed(complaint),
                500,
            ),
            None => vstd::utf8::encode_utf8(text::trimmed(complaint)).len() > 500,
        },
{
    if !success {
        let message = match result {
            Some(Err(m)) => Some(m),
            _ => None,
        };
        lemma_reports(
            message,
            "ffmpeg failed (exit "@ + ffmpeg::exit_text(code) + "): "@,
            text::trimmed(complaint),
            500,
        );
    }
}

/// An exit code stands in brackets, and reads back.
pub proof fn law_exit_text(code: i32)
    ensures
        ({
            let t = ffmpeg::exit_text(Some(code));
            let inner = t.subrange(5, t.len() - 1);
            &&& t.take(5) == "Some("@
            &&& t.last() == ')'
            &&& code >= 0 ==> text::number(inner) == code
            &&& code < 0 ==> inner[0] == '-' && text::number(inner.drop_first()) == -code
        }),
        ffmpeg::exit_text(None) == "None"@,
{
    reveal_strlit("Some(");
    reveal_strlit(")");
    text_laws::law_signed_decimal(code as int);
    let t = ffmpeg::exit_text(Some(code));
    assert(t.take(5) =~= "Some("@);
    assert(t.subrange(5, t.len() - 1) =~= text::signed_decimal(code as int));
}

/// Where each part of a description goes when its container is run.
pub proof fn law_docker_run(spec: ServeSpec)
    ensures
        ({
            let args = container::docker_run(spec);
            let port = args[6];
            let cache = text::without_trailing(spec.host_cache_dir@, '/');
            &&& args[0] == "run"@ && args[1] == "-d"@ && args[2] == "--runtime=nvidia"@
            &&& args[3] == "--name"@ && args[4] == spec.container_name@
            &&& args[5] == "-p"@ && port.len() > 5 && port.skip(port.len() - 5) == ":8000"@
                && text::number(port.take(port.len() - 5)) == spec.host_port
            &&& args[7] == "--shm-size"@ && args[8] == "1g"@
            &&& args[9] == "-v"@ && args[10] == spec.host_model_dir@ + (":"@ + (
            spec.container_model@ + ":ro"@))
            &&& args[11] == "-v"@ && args[12] == cache + "/triton:/root/.triton"@
            &&& args[13] == "-v"@ && args[14] == cache + "/flashinfer:/root/.cache/flashinfer"@
            &&& args[15] == "-v"@ && args[16] == cache
                + "/torchinductor:/root/.cache/torchinductor"@
            &&& args[17] == "-v"@ && args[18] == cache + "/vllm:/root/.cache/vllm"@
            &&& args[31] == "--entrypoint"@ && args[32] == "vllm"@
            &&& args[33] == spec.image@ && args[34] == "serve"@ && args[35] == spec.container_model@
        }),
{
    let args = container::docker_run(spec);
    let flags = container::docker_flags(spec);
    let head = container::container_flags(spec);
    let caches = container::cache_flags(spec.host_cache_dir@);
    let env = container::environment_flags();
    assert(head.len() == 10 && caches.len() == 8 && env.len() == 14);
    assert(flags.len() == 32);
    assert forall|i: int| 0 <= i < 10 implies #[trigger] head[i] == args[i + 1] by {}
    assert forall|i: int| 0 <= i < 8 implies #[trigger] caches[i] == args[i + 11] by {}
    assert forall|i: int| 0 <= i < 14 implies #[trigger] env[i] == args[i + 19] by {}
    assert(head[0] == "-d"@ && head[1] == "--runtime=nvidia"@ && head[2] == "--name"@);
    assert(head[3] == spec.container_name@ && head[4] == "-p"@);
    assert(head[5] == container::port_mapping(spec));
    assert(head[6] == "--shm-size"@ && head[7] == "1g"@ && head[8] == "-v"@);
    assert(head[9] == container::model_mount(spec));
    let cache = text::without_trailing(spec.host_cache_dir@, '/');
    assert(caches[0] == "-v"@ && caches[1] == cache + "/triton:/root/.triton"@);
    assert(caches[2] == "-v"@ && caches[3] == cache + "/flashinfer:/root/.cache/flashinfer"@);
    assert(caches[4] == "-v"@ && caches[5] == cache
        + "/torchinductor:/root/.cache/torchinductor"@);
    assert(caches[6] == "-v"@ && caches[7] == cache + "/vllm:/root/.cache/vllm"@);
    assert(env[12] == "--entrypoint"@ && env[13] == "vllm"@);
    reveal_strlit(":8000");
    text_laws::law_decimal_digits(spec.host_port as nat);
    let port = args[6];
    assert(port.skip(port.len() - 5) =~= ":8000"@);
    assert(port.take(port.len() - 5) =~= text::decimal(spec.host_port as nat));
    assert(container::model_mount(spec) =~= spec.host_model_dir@ + (":"@ + (spec.container_model@
        + ":ro"@)));
}

/// The environment of the container keeps the compile caches where they are mounted.
pub proof fn law_docker_environment(i: int)
    requires
        0 <= i < 6,
    ensures
        ({
            let env = container::environment_flags();
            let set = env[2 * i + 1];
            &&& env[2 * i] == "-e"@
            &&& i == 0 ==> set == "VLLM_CONFIGURE_LOGGING=0"@
            &&& i == 1 ==> set == "VLLM_DO_NOT_TRACK=1"@
            &&& i == 2 ==> set == "VLLM_NO_USAGE_STATS=1"@
            &&& i == 3 ==> set == "VLLM_CACHE_ROOT=/root/.cache/vllm"@
            &&& i == 4 ==> set == "TRITON_CACHE_DIR=/root/.triton"@
            &&& i == 5 ==> set == "TORCHINDUCTOR_CACHE_DIR=/root/.cache/torchinductor"@
        }),
{
}

/// Where each part of a description goes among the flags of the server; the flags of what
/// is not set are not there.
pub proof fn law_serve_flags(spec: ServeSpec)
    ensures
        ({
            let args = container::serve_flags(spec);
            let eager = if spec.enforce_eager {
                1int
            } else {
                0int
            };
            let seqs = if spec.max_num_seqs is Some {
                2int
            } else {
                0int
            };
            let kind = if spec.kv_cache_dtype is Some {
                2int
            } else {
                0int
            };
            &&& args.len() == 13 + eager + seqs + kind
            &&& args[0] == "--host"@ && args[1] == "0.0.0.0"@
            &&& args[2] == "--port"@ && args[3] == "8000"@
            &&& args[4] == "--dtype"@ && args[5] == spec.dtype@
            &&& args[6] == "--max-model-len"@ && text::number(args[7]) == spec.max_model_len
            &&& args[8] == "--gpu-memory-utilization"@ && args[9] == spec.gpu_memory_utilization@
            &&& args[10] == "--mm-processor-cache-gb"@ && args[11] == spec.mm_processor_cache_gb@
            &&& args[12] == "--enable-prefix-caching"@
            &&& spec.enforce_eager ==> args[13] == "--enforce-eager"@
            &&& spec.max_num_seqs matches Some(n) ==> args[13 + eager] == "--max-num-seqs"@
                && text::number(args[14 + eager]) == n
            &&& spec.kv_cache_dtype matches Some(t) ==> args[13 + eager + seqs]
                == "--kv-cache-dtype"@ && args[14 + eager + seqs] == t@
        }),
{
    text::law_decimal_reads_back(spec.max_model_len as nat);
    if let Some(n) = spec.max_num_seqs {
        text::law_decimal_reads_back(n as nat);
    }
    let args = container::serve_flags(spec);
    let always = container::server_flags(spec);
    assert(always.len() == 13);
    assert forall|i: int| 0 <= i < 13 implies #[trigger] always[i] == args[i] by {}
    assert(always[0] == "--host"@ && always[1] == "0.0.0.0"@ && always[2] == "--port"@);
    assert(always[3] == "8000"@ && always[4] == "--dtype"@ && always[5] == spec.dtype@);
    assert(always[6] == "--max-model-len"@);
    assert(always[7] == text::decimal(spec.max_model_len as nat));
    assert(always[8] == "--gpu-memory-utilization"@ && always[9] == spec.gpu_memory_utilization@);
    assert(always[10] == "--mm-processor-cache-gb"@ && always[11] == spec.mm_processor_cache_gb@);
    assert(always[12] == "--enable-prefix-caching"@);
}

/// A container runs if docker answers `true`, whatever white space is around it, and
/// not for an answer with anything else in it.
pub proof fn law_answers_running(before: Seq<char>, word: Seq<char>, after: Seq<char>)
    requires
        forall|i: int| 0 <= i < before.len() ==> text::is_white_space(#[trigger] before[i]),
        forall|i: int| 0 <= i < after.len() ==> text::is_white_space(#[trigger] after[i]),
        word.len() > 0 ==> !text::is_white_space(word.first()) && !text::is_white_space(word.last()),
    ensures
        container::answers_running(before + word + after) <==> word == "true"@,
{
    text_laws::law_trimmed_inner(before, word, after);
}

/// The report on a container that did not start ends in the reason, without the white space
/// around it.
pub proof fn law_start_report(reason: Seq<char>)
    ensures
        ({
            let r = container::start_report(reason);
            let start = "docker run failed: "@;
            &&& start.is_prefix_of(r)
            &&& r.skip(start.len() as int) == text::trimmed(reason)
        }),
{
    let r = container::start_report(reason);
    let start = "docker run failed: "@;
    assert(start =~= r.take(start.len() as int));
    assert(r.skip(start.len() as int) =~= text::trimmed(reason));
}

/// The report on a server that is not healthy names the container and the seconds.
pub proof fn law_unhealthy_report(name: Seq<char>, timeout: u64)
    ensures
        ({
            let r = container::unhealthy_report(name, timeout);
            let start = "ASR container '"@ + name + "' did not become healthy within "@;
            &&& start.is_prefix_of(r)
            &&& r.last() == 's'
            &&& text::number(r.subrange(start.len() as int, r.len() - 1)) == timeout
        }),
{
    reveal_strlit("s");
    text::law_decimal_reads_back(timeout as nat);
    let r = container::unhealthy_report(name, timeout);
    let start = "ASR container '"@ + name + "' did not become healthy within "@;
    assert(start =~= r.take(start.len() as int));
    assert(r.subrange(start.len() as int, r.len() - 1) =~= text::decimal(timeout as nat));
}

/// The address of the server ends in the port.
pub proof fn law_endpoint(port: u16)
    ensures
        ({
            let e = container::endpoint_at(port);
            &&& "http://127.0.0.1:"@.is_prefix_of(e)
            &&& text::number(e.skip("http://127.0.0.1:"@.len() as int)) == port
        }),
{
    text::law_decimal_reads_back(port as nat);
    let e = container::endpoint_at(port);
    let start = "http://127.0.0.1:"@;
    assert(start =~= e.take(start.len() as int));
    assert(e.skip(start.len() as int) =~= text::decimal(port as nat));
}

/// Whether the current step of a launch fails the attempt.
pub open spec fn fails(launch: Launch, ok: bool) -> bool {
    !ok && (launch.step is Run || launch.step is Inspect || launch.step is Clock)
}

/// What leads to each step of a launch.
pub proof fn law_launch_steps(launch: Launch, ok: bool)
    requires
        launch.wf(),
    ensures
        ({
            let next = launch.next(ok);
            let last = launch.attempt == launch.attempts;
            &&& next.step is Clear <==> launch.step is Pause
            &&& next.step is Run <==> launch.step is Clear
            &&& next.step is Inspect <==> ok && launch.step is Run || launch.step is Wait
            &&& next.step is Probe <==> ok && launch.step is Inspect
            &&& next.step is Clock <==> !ok && launch.step is Probe
            &&& next.step is Wait <==> ok && launch.step is Clock
            &&& next.step is Ready <==> ok && launch.step is Probe || launch.step is Ready
            &&& next.step is Logs <==> last && fails(launch, ok)
            &&& next.step is Remove <==> !last && fails(launch, ok) || launch.step is Logs
            &&& next.step is Pause <==> !last && launch.step is Remove
            &&& next.step is Failed <==> last && launch.step is Remove || launch.step is Failed
        }),
{
}

/// A launch keeps the reason of its failure, and a new attempt begins only after a pause.
pub proof fn law_launch_keeps(launch: Launch, ok: bool)
    requires
        launch.wf(),
    ensures
        launch.next(ok).attempts == launch.attempts,
        launch.next(ok).attempt == launch.attempt + if launch.step is Pause {
            1int
        } else {
            0int
        },
        fails(launch, ok) ==> {
            let why = if launch.step is Run {
                LaunchFailure::NotStarted
            } else {
                LaunchFailure::NotHealthy
            };
            launch.next(ok).step == LaunchStep::Logs(why) || launch.next(ok).step
                == LaunchStep::Remove(why)
        },
        launch.step matches LaunchStep::Logs(why) ==> launch.next(ok).step == LaunchStep::Remove(
            why,
        ),
        launch.step matches LaunchStep::Remove(why) ==> launch.next(ok).step is Pause
            || launch.next(ok).step == LaunchStep::Failed(why),
{
}

/// A launch begins by clearing, and has at least one attempt.
pub proof fn law_launch_begins(retries: u32)
    ensures
        Launch::initial(retries).step is Clear,
        Launch::initial(retries).attempt == 1,
        Launch::initial(retries).attempts >= 1,
        retries >= 1 ==> Launch::initial(retries).attempts == retries,
        retries == 0 ==> Launch::initial(retries).attempts == 1,
{
}

/// A kernel gets the address of each of its buffers, in their order.
pub proof fn law_addresses(slots: Seq<device::Slot>, table: Seq<u64>, i: int)
    requires
        0 <= i < slots.len(),
    ensures
        device::addresses(slots, table).len() == slots.len(),
        device::addresses(slots, table)[i] == table[device::index_of(slots[i])],
{
}

/// The report of the driver has its number and what was asked of it.
pub proof fn law_driver_report(code: i32, what: Seq<char>)
    ensures
        ({
            let r = device::driver_report(code, what);
            let start = "CUDA driver error "@;
            let digits = r.subrange(start.len() as int, r.len() - 4 - what.len());
            &&& start.is_prefix_of(r)
            &&& r.skip(r.len() - what.len()) == what
            &&& r.subrange(r.len() - 4 - what.len(), r.len() - what.len()) == " in "@
            &&& code >= 0 ==> text::number(digits) == code
            &&& code < 0 ==> digits[0] == '-' && text::number(digits.drop_first()) == -code
        }),
{
    reveal_strlit(" in ");
    text_laws::law_signed_decimal(code as int);
    let r = device::driver_report(code, what);
    let start = "CUDA driver error "@;
    assert(start =~= r.take(start.len() as int));
    assert(r.skip(r.len() - what.len()) =~= what);
    assert(r.subrange(r.len() - 4 - what.len(), r.len() - what.len()) =~= " in "@);
    assert(r.subrange(start.len() as int, r.len() - 4 - what.len()) =~= text::signed_decimal(
        code as int,
    ));
}

/// The tally of a code is the number of votes for it, wherever they stand.
pub proof fn law_tally(votes: Seq<Option<Seq<char>>>, code: Seq<char>)
    ensures
        langdetect::tally(votes, code) == votes.to_multiset().count(Some(code)),
    decreases votes.len(),
{
    if votes.len() == 0 {
        votes.to_multiset_ensures();
        assert(!votes.contains(Some(code)));
        assert(votes.to_multiset().count(Some(code)) == 0);
    } else {
        let front = votes.drop_last();
        law_tally(front, code);
        vstd::seq_lib::to_multiset_build(front, votes.last());
        assert(front.push(votes.last()) =~= votes);
    }
}

/// The winner has at least as many votes as any other, and there is none only if nobody
/// voted.
pub proof fn law_winner(votes: Seq<Option<Seq<char>>>, winner: Option<Seq<char>>, other: Seq<char>)
    requires
        langdetect::wins(votes, winner),
    ensures
        winner matches Some(code) ==> votes.contains(Some(code)) && votes.to_multiset().count(
            Some(other),
        ) <= votes.to_multiset().count(Some(code)),
        winner is None ==> !votes.contains(Some(other)),
{
    if let Some(code) = winner {
        law_tally(votes, code);
        law_tally(votes, other);
        votes.to_multiset_ensures();
    }
}

/// White space does not count, and every other character counts once.
pub proof fn law_solid_chars(s: Seq<char>)
    ensures
        langdetect::solid_chars(s) == s.filter(|c: char| !text::is_white_space(c)).len(),
    decreases s.len(),
{
    reveal(Seq::filter);
    if s.len() > 0 {
        law_solid_chars(s.drop_last());
    }
}

/// The codes of languages that count, by their longer codes.
pub open spec fn counted_languages() -> Seq<(Seq<char>, Seq<char>)> {
    seq![
        ("cmn"@, "zh"@),
        ("jpn"@, "ja"@),
        ("eng"@, "en"@),
        ("kor"@, "ko"@),
        ("fra"@, "fr"@),
        ("deu"@, "de"@),
        ("spa"@, "es"@),
        ("rus"@, "ru"@),
    ]
}

/// A transcription votes for a language only if it has ten characters besides white space,
/// the language was detected with a confidence of at least 0.05, and is one that counts.
pub proof fn law_vote(transcription: Seq<char>, code: Seq<char>)
    requires
        langdetect::vote(transcription) == Some(code),
    ensures
        ({
            let t = text::trimmed(transcription);
            &&& langdetect::solid_chars(t) >= 10
            &&& langdetect::detected(t) matches Some((lang, confidence))
                && counted_languages().contains((lang, code)) && !double::double_below(
                confidence,
                0x3fa9_9999_9999_999a,
            )
        }),
{
    let l = counted_languages();
    assert(l[0] == ("cmn"@, "zh"@) && l[1] == ("jpn"@, "ja"@) && l[2] == ("eng"@, "en"@));
    assert(l[3] == ("kor"@, "ko"@) && l[4] == ("fra"@, "fr"@) && l[5] == ("deu"@, "de"@));
    assert(l[6] == ("spa"@, "es"@) && l[7] == ("rus"@, "ru"@));
}

/// A transcription with ten characters besides white space, whose language was detected
/// with a confidence of at least 0.05 and counts, votes for it.
pub proof fn law_votes(transcription: Seq<char>, i: int, confidence: u64)
    requires
        0 <= i < 8,
        langdetect::solid_chars(text::trimmed(transcription)) >= 10,
        langdetect::detected(text::trimmed(transcription)) == Some(
            (counted_languages()[i].0, confidence),
        ),
        !double::double_below(confidence, 0x3fa9_9999_9999_999a),
    ensures
        langdetect::vote(transcription) == Some(counted_languages()[i].1),
{
    reveal_strlit("cmn");
    reveal_strlit("jpn");
    reveal_strlit("eng");
    reveal_strlit("kor");
    reveal_strlit("fra");
    reveal_strlit("deu");
    reveal_strlit("spa");
    reveal_strlit("rus");
    assert("cmn"@[0] == 'c' && "jpn"@[0] == 'j' && "eng"@[0] == 'e' && "kor"@[0] == 'k');
    assert("fra"@[0] == 'f' && "deu"@[0] == 'd' && "spa"@[0] == 's' && "rus"@[0] == 'r');
    let l = counted_languages();
    assert(l[0] == ("cmn"@, "zh"@) && l[1] == ("jpn"@, "ja"@) && l[2] == ("eng"@, "en"@));
    assert(l[3] == ("kor"@, "ko"@) && l[4] == ("fra"@, "fr"@) && l[5] == ("deu"@, "de"@));
    assert(l[6] == ("spa"@, "es"@) && l[7] == ("rus"@, "ru"@));
}

/// The server is looked at every 4 seconds, and started again after 8.
pub proof fn law_intervals()
    ensures
        container::HEALTH_INTERVAL_S == 4,
        container::RETRY_INTERVAL_S == 8,
{
}

/// What docker is asked to do with a container by its name.
pub proof fn law_docker_by_name(name: Seq<char>)
    ensures
        container::docker_remove(name).len() == 3 && container::docker_remove(name)[0] == "rm"@
            && container::docker_remove(name)[1] == "-f"@ && container::docker_remove(name)[2]
            == name,
        container::docker_logs(name).len() == 2 && container::docker_logs(name)[0] == "logs"@
            && container::docker_logs(name)[1] == name,
        container::docker_inspect(name).len() == 4 && container::docker_inspect(name)[0]
            == "inspect"@ && container::docker_inspect(name)[1] == "-f"@
            && container::docker_inspect(name)[2] == "{{.State.Running}}"@
            && container::docker_inspect(name)[3] == name,
{
}

/// An address is given back to the device exactly if there is one and it is not that of the
/// input.
pub proof fn law_owned(address: u64, input: u64)
    ensures
        device::owned(address, input) <==> address != 0 && address != input,
{
}

/// A table has room for every buffer, is empty if there are none, and never has more than
/// 24 places.
pub proof fn law_table_size(slots: Seq<device::Slot>, n: int, i: int)
    requires
        device::fits(slots, n),
        n >= 0,
    ensures
        0 <= i < slots.len() ==> device::index_of(slots[i]) < n,
        slots.len() == 0 ==> n == 0,
        n <= 24,
{
}

} // verus!
