//! The transcription server, its container, ffmpeg and the device.

use otograph::asr;
use otograph::asr::AsrClient;
use otograph::container;
use otograph::container::{ContainerGuard, Launch, LaunchFailure, LaunchStep, ServeSpec};
use otograph::device;
use otograph::device::Slot;
use otograph::ffmpeg;

fn client(server: &str, language: Option<&str>) -> AsrClient {
    AsrClient::new(
        server.to_string(),
        "/models/Qwen3-ASR-1.7B".to_string(),
        language.map(|s| s.to_string()),
        200,
    )
}

fn fields(c: &AsrClient) -> Vec<(String, String)> {
    c.form_fields().into_iter().map(|f| (f.name, f.value)).collect()
}

fn pair(a: &str, b: &str) -> (String, String) {
    (a.to_string(), b.to_string())
}

#[test]
fn requests_to_the_server() {
    let c = client("http://localhost:8002", Some("ja"));
    assert_eq!(c.url, "http://localhost:8002/v1/audio/transcriptions");
    assert_eq!(client("http://localhost:8002//", None).url, c.url);
    assert_eq!(
        fields(&c),
        vec![
            pair("model", "/models/Qwen3-ASR-1.7B"),
            pair("max_completion_tokens", "200"),
            pair("language", "ja"),
        ]
    );
    assert_eq!(fields(&client("x", None)).len(), 2);
    assert_eq!(asr::models_url("http://h:1/"), "http://h:1/v1/models");
}

#[test]
fn replies_of_the_server() {
    let ok = |s: &str| Some(Ok(s.to_string()));
    let err = |s: &str| Some(Err(s.to_string()));
    let said = Ok(Some("hello".to_string()));
    assert_eq!(asr::transcription(200, "200 OK", said, b"{}"), ok("hello"));
    assert_eq!(asr::transcription(299, "299", Ok(None), b"{}"), ok(""));
    assert_eq!(
        asr::transcription(404, "404 Not Found", Ok(None), b"no such model"),
        err("ASR HTTP 404 Not Found: no such model")
    );
    assert_eq!(asr::transcription(300, "300", Ok(None), b""), err("ASR HTTP 300: "));
    assert_eq!(asr::transcription(199, "199", Ok(None), b""), err("ASR HTTP 199: "));
    assert_eq!(
        asr::transcription(200, "200 OK", Err("bad".to_string()), b"\xff<html>"),
        err("decode ASR json: bad | body: \u{fffd}<html>")
    );
}

#[test]
fn errors_quote_the_start_of_the_body() {
    let body = vec![b'x'; 1000];
    match asr::transcription(500, "500", Ok(None), &body) {
        Some(Err(e)) => assert_eq!(e, format!("ASR HTTP 500: {}", "x".repeat(400))),
        _ => panic!(),
    }
    match asr::transcription(200, "200", Err("e".to_string()), &body) {
        Some(Err(e)) => assert_eq!(e, format!("decode ASR json: e | body: {}", "x".repeat(200))),
        _ => panic!(),
    }
    let body = "é".repeat(300).into_bytes();
    assert!(matches!(asr::transcription(500, "500", Ok(None), &body), Some(Err(_))));
    let body = format!("x{}", "é".repeat(300)).into_bytes();
    assert_eq!(asr::transcription(500, "500", Ok(None), &body), None);
    assert_eq!(asr::transcription(200, "200", Err("e".to_string()), &body), None);
}

#[test]
fn ffmpeg_is_asked_for_bare_samples() {
    let before = ["-nostdin", "-hide_banner", "-loglevel", "error", "-y", "-i"];
    let after = ["-vn", "-ac", "1", "-ar", "16000", "-c:a", "pcm_s16le", "-f", "s16le", "-"];
    assert_eq!(ffmpeg::args_before_input(), before);
    assert_eq!(ffmpeg::args_after_input(), after);
}

#[test]
fn answers_of_ffmpeg() {
    assert_eq!(ffmpeg::pcm_of(true, Some(0), vec![1, 2], b"warning"), Some(Ok(vec![1, 2])));
    assert_eq!(
        ffmpeg::pcm_of(false, Some(1), vec![], b"  no such file\n"),
        Some(Err("ffmpeg failed (exit Some(1)): no such file".to_string()))
    );
    assert_eq!(
        ffmpeg::pcm_of(false, None, vec![], b""),
        Some(Err("ffmpeg failed (exit None): ".to_string()))
    );
    assert_eq!(
        ffmpeg::pcm_of(false, Some(-22), vec![], &vec![b'x'; 600]),
        Some(Err(format!("ffmpeg failed (exit Some(-22)): {}", "x".repeat(500))))
    );
    let odd = format!("x{}", "é".repeat(300)).into_bytes();
    assert_eq!(ffmpeg::pcm_of(false, Some(1), vec![], &odd), None);
}

fn spec() -> ServeSpec {
    ServeSpec {
        image: "qwen3-asr-vllm:audio".to_string(),
        host_model_dir: "/data/Qwen3-ASR-1.7B".to_string(),
        host_cache_dir: "/cache//".to_string(),
        container_model: "/models/Qwen3-ASR-1.7B".to_string(),
        host_port: 8002,
        container_name: "qwen3-asr-1.7b".to_string(),
        dtype: "bfloat16".to_string(),
        kv_cache_dtype: None,
        gpu_memory_utilization: "0.03".to_string(),
        max_model_len: 512,
        max_num_seqs: Some(128),
        mm_processor_cache_gb: "0".to_string(),
        enforce_eager: true,
        health_timeout: 600,
        launch_retries: 3,
    }
}

#[test]
fn the_container_is_run_with_its_flags() {
    let expected = "run -d --runtime=nvidia --name qwen3-asr-1.7b -p 8002:8000 --shm-size 1g \
        -v /data/Qwen3-ASR-1.7B:/models/Qwen3-ASR-1.7B:ro -v /cache/triton:/root/.triton \
        -v /cache/flashinfer:/root/.cache/flashinfer \
        -v /cache/torchinductor:/root/.cache/torchinductor -v /cache/vllm:/root/.cache/vllm \
        -e VLLM_CONFIGURE_LOGGING=0 -e VLLM_DO_NOT_TRACK=1 -e VLLM_NO_USAGE_STATS=1 \
        -e VLLM_CACHE_ROOT=/root/.cache/vllm -e TRITON_CACHE_DIR=/root/.triton \
        -e TORCHINDUCTOR_CACHE_DIR=/root/.cache/torchinductor --entrypoint vllm \
        qwen3-asr-vllm:audio serve /models/Qwen3-ASR-1.7B --host 0.0.0.0 --port 8000 \
        --dtype bfloat16 --max-model-len 512 --gpu-memory-utilization 0.03 \
        --mm-processor-cache-gb 0 --enable-prefix-caching";
    let expected: Vec<&str> = expected.split_whitespace().collect();
    let got = container::docker_run_args(&spec());
    assert_eq!(got[..expected.len()], expected);
    assert_eq!(got[expected.len()..], ["--enforce-eager", "--max-num-seqs", "128"]);
    let mut other = spec();
    other.enforce_eager = false;
    other.max_num_seqs = None;
    other.kv_cache_dtype = Some("fp8".to_string());
    other.host_cache_dir = "/cache".to_string();
    let got = container::docker_run_args(&other);
    assert_eq!(got[..expected.len()], expected);
    assert_eq!(got[expected.len()..], ["--kv-cache-dtype", "fp8"]);
}

#[test]
fn other_requests_to_docker() {
    assert_eq!(container::docker_remove_args("n"), ["rm", "-f", "n"]);
    assert_eq!(container::docker_logs_args("n"), ["logs", "n"]);
    assert_eq!(container::docker_inspect_args("n"), ["inspect", "-f", "{{.State.Running}}", "n"]);
    assert!(container::is_running(b" true\n"));
    assert!(container::says_running("true"));
    assert!(!container::says_running("tru"));
    assert!(!container::is_running(b"false\n"));
    assert!(!container::is_running(b"true\xff"));
    assert!(!container::is_running(b""));
    assert_eq!(container::health_url("http://127.0.0.1:1"), "http://127.0.0.1:1/health");
    assert_eq!(container::run_failure(b" boom \n"), "docker run failed: boom");
    assert_eq!(
        container::health_failure(&spec()),
        "ASR container 'qwen3-asr-1.7b' did not become healthy within 600s"
    );
}

#[test]
fn the_guard_of_a_container() {
    let guard = ContainerGuard::new(&spec());
    assert_eq!(guard.endpoint(), "http://127.0.0.1:8002");
    assert_eq!(guard.name(), "qwen3-asr-1.7b");
    assert_eq!(guard.removal().unwrap(), ["rm", "-f", "qwen3-asr-1.7b"]);
}

/// The steps that follow, given how each one goes.
fn steps(retries: u32, oks: &[bool]) -> Vec<LaunchStep> {
    let mut launch = Launch::new(retries);
    let mut out = vec![launch.step];
    for &ok in oks {
        launch.advance(ok);
        out.push(launch.step);
    }
    out
}

#[test]
fn a_container_becomes_healthy() {
    let got = steps(1, &[true, true, true, false, true, true, true, true]);
    let expected = vec![
        LaunchStep::Clear,
        LaunchStep::Run,
        LaunchStep::Inspect,
        LaunchStep::Probe,
        LaunchStep::Clock,
        LaunchStep::Wait,
        LaunchStep::Inspect,
        LaunchStep::Probe,
        LaunchStep::Ready,
    ];
    assert_eq!(got, expected);
}

#[test]
fn a_container_is_started_again() {
    let got = steps(2, &[true, false, true, true, true, true, false, true, true]);
    let expected = vec![
        LaunchStep::Clear,
        LaunchStep::Run,
        LaunchStep::Remove(LaunchFailure::NotStarted),
        LaunchStep::Pause,
        LaunchStep::Clear,
        LaunchStep::Run,
        LaunchStep::Inspect,
        LaunchStep::Logs(LaunchFailure::NotHealthy),
        LaunchStep::Remove(LaunchFailure::NotHealthy),
        LaunchStep::Failed(LaunchFailure::NotHealthy),
    ];
    assert_eq!(got, expected);
}

#[test]
fn the_last_container_shows_what_it_printed_before_it_is_removed() {
    let got = steps(1, &[true, false, true, true]);
    let expected = vec![
        LaunchStep::Clear,
        LaunchStep::Run,
        LaunchStep::Logs(LaunchFailure::NotStarted),
        LaunchStep::Remove(LaunchFailure::NotStarted),
        LaunchStep::Failed(LaunchFailure::NotStarted),
    ];
    assert_eq!(got, expected);
}

#[test]
fn a_container_is_given_up_when_time_is_over() {
    let got = steps(0, &[true, true, true, false, false]);
    assert_eq!(got[5], LaunchStep::Logs(LaunchFailure::NotHealthy));
    let mut launch = Launch::new(0);
    assert_eq!(launch.attempts, 1);
    for _ in 0..100 {
        launch.advance(false);
    }
    assert_eq!(launch.step, LaunchStep::Failed(LaunchFailure::NotStarted));
    assert_eq!(launch.attempt, 1);
    let mut launch = Launch::new(5);
    let mut runs = 0;
    let mut removals = 0;
    for _ in 0..100 {
        match launch.step {
            LaunchStep::Run => runs += 1,
            LaunchStep::Remove(_) => removals += 1,
            LaunchStep::Logs(_) => assert_eq!((runs, removals), (5, 4)),
            _ => {}
        }
        launch.advance(false);
    }
    assert_eq!((runs, removals), (5, 5));
}

fn all_slots() -> Vec<Slot> {
    vec![
        Slot::Xpad, Slot::SpecG, Slot::E0G, Slot::E1G, Slot::E2G, Slot::FeatG, Slot::ZG, Slot::Prob,
        Slot::H, Slot::C, Slot::Basis, Slot::Ew0, Slot::Ew1, Slot::Ew2, Slot::Ew3, Slot::Eb0,
        Slot::Eb1, Slot::Eb2, Slot::Eb3, Slot::Wl, Slot::Rl, Slot::Lb, Slot::Fcw, Slot::Fcb,
    ]
}

#[test]
fn buffers_of_the_device() {
    let all = all_slots();
    for (i, &s) in all.iter().enumerate() {
        assert_eq!(device::slot_index(s), i);
    }
    let sizes: Vec<usize> = all.iter().map(|&s| device::slot_nelems(s)).collect();
    assert_eq!(sizes[..10], [640, 774, 768, 256, 192, 128, 512, 1, 128, 128]);
    assert!(sizes[10..].iter().all(|&n| n == 0));
    assert_eq!(device::slot_count(&all), 24);
    assert_eq!(device::slot_count(&Vec::new()), 0);
    assert_eq!(device::slot_count(&vec![Slot::H, Slot::Prob]), 9);
    assert_eq!(device::scratch_slots(), all[1..10]);
    assert_eq!(device::state_slots(), [Slot::H, Slot::C]);
}

#[test]
fn addresses_on_the_device() {
    let table: Vec<u64> = vec![7, 0, 8, 7, 9, 8];
    assert_eq!(device::kernel_addresses(&vec![Slot::E2G, Slot::Xpad], &table), [9, 7]);
    assert_eq!(device::owned_addresses(&table, 7), [8, 9, 8]);
    assert_eq!(device::owned_addresses(&Vec::new(), 7), Vec::<u64>::new());
}

#[test]
fn errors_of_the_driver() {
    assert_eq!(device::driver_result(0, "cuInit"), Ok(()));
    assert_eq!(
        device::driver_result(200, "cuLibraryLoadData"),
        Err("CUDA driver error 200 in cuLibraryLoadData".to_string())
    );
    assert_eq!(device::driver_result(-1, "x"), Err("CUDA driver error -1 in x".to_string()));
}
