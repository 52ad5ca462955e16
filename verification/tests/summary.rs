use hilmon::double::Double;
use hilmon::summarizer::{can_extract, clean_key, curl_config, extract, request, Summarizer, PROMPT};
use hilmon::summary::{digest, digest_with_trend, total_watts, write_json};

fn d(x: f64) -> Double {
    Double { bits: x.to_bits() }
}

#[test]
fn curl_config_escapes_windows_paths() {
    let c = curl_config("m", "k", r"C:\Users\me\AppData\Local\Temp\body.json", 30);
    assert!(
        c.contains("data-binary = \"@C:/Users/me/AppData/Local/Temp/body.json\""),
        "a backslash in a curl config is an escape; the path must use forward slashes:\n{}",
        c
    );
    assert!(!c.contains("\\"), "no backslash may survive into the config:\n{}", c);
}

#[test]
fn extract_reads_the_answer() {
    let body = r#"{"candidates":[{"content":{"parts":[{"text":"  hi22가 가득 찼습니다.  "}]}}]}"#;
    assert_eq!(extract(body).unwrap(), "hi22가 가득 찼습니다.");
}

#[test]
fn extract_refuses_a_truncated_answer() {
    let body = r#"{"candidates":[{"finishReason":"MAX_TOKENS",
                       "content":{"parts":[{"text":"전체 GPU 83개 중"}]}}]}"#;
    let e = extract(body).unwrap_err();
    assert!(e.contains("MAX_TOKENS"), "{}", e);
}

#[test]
fn extract_accepts_an_explicit_clean_finish() {
    let body = r#"{"candidates":[{"finishReason":"STOP",
                       "content":{"parts":[{"text":"조용합니다."}]}}]}"#;
    assert_eq!(extract(body).unwrap(), "조용합니다.");
}

#[test]
fn extract_flattens_a_list_the_model_should_not_have_sent() {
    let body = r#"{"candidates":[{"content":{"parts":[{"text":"- hi22 가득\n- hi27 유휴"}]}}]}"#;
    assert_eq!(extract(body).unwrap(), "hi22 가득 hi27 유휴");
}

#[test]
fn extract_surfaces_the_api_error_instead_of_a_parse_failure() {
    let body = r#"{"error":{"code":429,"message":"Quota exceeded"}}"#;
    let e = extract(body).unwrap_err();
    assert!(e.contains("429"), "{}", e);
    assert!(e.contains("Quota exceeded"), "{}", e);
}

#[test]
fn extract_rejects_a_response_with_no_text() {
    assert!(extract(r#"{"candidates":[]}"#).is_err());
    assert!(extract("not json at all").is_err());
}

#[test]
fn digest_reads_the_published_snapshot() {
    let snap = r#"{"servers":[
            {"name":"g1","status":"ok","gpu_model":"3090","loc":"a","watts":900,
             "gpus":[{"util":97,"mem_used":20000,"temp":70},
                     {"util":0,"mem_used":10,"temp":35}]},
            {"name":"g2","status":"down","gpu_model":"4090","loc":"b"}
        ]}"#;
    let d = digest(snap).unwrap();
    assert!(d.contains("GPU 1/2 사용중"), "{}", d);
    assert!(d.contains("g2: 응답 없음"), "{}", d);
    assert!(d.contains("g1 (3090): GPU 1/2 사용중, 900 W, 최고 70도, 랙 a"), "{}", d);
    assert!(d.contains("g1이 900 W로 전력을 가장 많이 쓰는 중"), "{}", d);
    assert!(d.contains("가장 뜨거운 카드는 g1의 70도 (경고 임계 85도)"), "{}", d);
}

#[test]
fn digest_counts_idle_servers_itself() {
    let mut servers = Vec::new();
    for i in 1..=7 {
        servers.push(format!(
            r#"{{"name":"idle{}","status":"ok","gpu_model":"x","loc":"r","watts":90,
                    "gpus":[{{"util":0,"mem_used":5,"temp":30}}]}}"#,
            i
        ));
    }
    servers.push(
        r#"{"name":"busy1","status":"ok","gpu_model":"x","loc":"r","watts":900,
               "gpus":[{"util":99,"mem_used":9000,"temp":88}]}"#
            .to_string(),
    );
    let snap = format!(r#"{{"servers":[{}]}}"#, servers.join(","));
    let d = digest(&snap).unwrap();
    assert!(d.contains("판정: 이상 징후"), "{}", d);
    assert!(d.contains("busy1: GPU 온도 88도"), "{}", d);
    assert!(d.contains("가장 뜨거운 카드는 busy1의 88도"), "{}", d);
}

#[test]
fn a_healthy_cluster_is_reported_as_healthy() {
    let snap = r#"{"servers":[
            {"name":"g1","status":"ok","gpu_model":"x","loc":"r","watts":300,
             "gpus":[{"util":80,"mem_used":9000,"temp":62,"power_limit":350}]}
        ]}"#;
    let d = digest(snap).unwrap();
    assert!(d.starts_with("판정: 이상 없음"), "{}", d);
    assert!(!d.contains("이상 징후:"), "{}", d);
}

#[test]
fn a_card_at_its_power_limit_is_an_anomaly() {
    let snap = r#"{"servers":[
            {"name":"g1","status":"ok","gpu_model":"x","loc":"r","watts":345,
             "gpus":[{"util":99,"mem_used":9000,"temp":70,"power_limit":350}]}
        ]}"#;
    let d = digest(snap).unwrap();
    assert!(d.contains("전력 상한 근접"), "{}", d);
    assert!(d.contains("99%"), "{}", d);
}

#[test]
fn the_briefing_never_reports_spare_capacity() {
    let snap = r#"{"servers":[
            {"name":"idle1","status":"ok","gpu_model":"x","loc":"roomA","watts":90,
             "gpus":[{"util":0,"mem_used":4,"mem_total":24000,"temp":30,"power_limit":350,"fan":30}]},
            {"name":"busy1","status":"ok","gpu_model":"x","loc":"roomB","watts":900,
             "gpus":[{"util":99,"mem_used":23000,"mem_total":24000,"temp":70,"power_limit":1000,"fan":99}]}
        ]}"#;
    let d = digest(snap).unwrap();
    for banned in ["비어 있는 서버", "여유 서버", "유휴 서버", "사용 가능한 서버"] {
        assert!(!d.contains(banned), "digest leaked spare capacity ({}):\n{}", banned, d);
    }
    assert!(d.contains("전체 규모: GPU 2대 중 1대 사용 중"), "{}", d);
}

#[test]
fn the_briefing_carries_power_heat_and_memory() {
    let snap = r#"{"servers":[
            {"name":"g1","status":"ok","gpu_model":"x","loc":"roomA","watts":120,
             "gpus":[{"util":10,"mem_used":100,"mem_total":24000,"temp":40,"power_limit":350,"fan":30}]},
            {"name":"g2","status":"ok","gpu_model":"x","loc":"roomB","watts":900,
             "gpus":[{"util":99,"mem_used":23500,"mem_total":24000,"temp":70,"power_limit":1000,"fan":98}]}
        ]}"#;
    let d = digest_with_trend(snap, Some((d(800.0), 10))).unwrap();
    assert!(d.contains("roomB이 900 W로 전력을 가장 많이 쓰는 중"), "{}", d);
    assert!(d.contains("VRAM이 92% 이상 차서 추가 할당 시 OOM 위험: g2 98%"), "{}", d);
    assert!(d.contains("팬이 95% 이상으로 냉각 여력이 없음: g2 98%"), "{}", d);
    assert!(
        d.contains("직전 브리핑(10분 전)과 비교하면 전력이 800 W에서 1020 W로 +220 W 변함"),
        "{}",
        d
    );
    assert!(d.contains("서버 2대 중 2대 응답"), "{}", d);
}

#[test]
fn a_fan_above_its_reference_maximum_reads_as_100() {
    let snap = r#"{"servers":[
            {"name":"g1","status":"ok","gpu_model":"x","loc":"r","watts":300,
             "gpus":[{"util":90,"mem_used":100,"mem_total":24000,"temp":70,
                      "power_limit":350,"fan":115}]}
        ]}"#;
    let d = digest(snap).unwrap();
    assert!(d.contains("냉각 여력이 없음: g1 100%"), "{}", d);
    assert!(!d.contains("115"), "a percentage over 100 reads as a bug:\n{}", d);
}

#[test]
fn total_watts_counts_only_responding_servers() {
    let snap = r#"{"servers":[
            {"name":"a","status":"ok","watts":100,"gpus":[]},
            {"name":"b","status":"ok","watts":250,"gpus":[]},
            {"name":"c","status":"down","watts":9999}
        ]}"#;
    assert_eq!(total_watts(snap), Some(d(350.0)));
}

#[test]
fn digest_tolerates_a_byte_order_mark() {
    let snap = "\u{feff}{\"servers\":[{\"name\":\"g1\",\"status\":\"ok\",\"gpu_model\":\"x\",\
                    \"loc\":\"r\",\"watts\":90,\"gpus\":[{\"util\":0,\"mem_used\":4,\"temp\":30}]}]}";
    assert!(digest(snap).is_some(), "a BOM must not make the snapshot unreadable");
}

#[test]
fn digest_of_nothing_is_nothing() {
    assert!(digest(r#"{"servers":[]}"#).is_none());
    assert!(digest("garbage").is_none());
}

#[test]
fn a_key_is_what_is_left_of_its_file() {
    assert_eq!(clean_key("  abc\n").as_deref(), Some("abc"));
    assert_eq!(clean_key(" \n"), None);
    assert_eq!(clean_key(""), None);
}

#[test]
fn an_answer_becomes_the_text() {
    let snap = r#"{"servers":[{"name":"a","status":"ok","watts":100,"gpus":[]}]}"#;
    let later = r#"{"servers":[{"name":"a","status":"ok","watts":160,"gpus":[]}]}"#;
    let mut s = Summarizer::new("key".to_string(), "m".to_string());
    assert_eq!(s.prompt(), PROMPT);
    assert_eq!(s.model(), "m");
    assert_eq!(s.timeout, 30);
    s.set_timeout(0);
    assert_eq!(s.timeout, 1);
    s.set_prompt("p".to_string());
    assert_eq!(s.prompt(), "p");
    assert!(!s.facts(snap, 1000).unwrap().contains("직전 브리핑"));
    assert!(s.refresh(snap, 1000, Ok("one".to_string())));
    assert!(!s.refresh(snap, 1010, Ok("one".to_string())));
    assert!(!s.refresh(later, 1500, Err("timed out".to_string())));
    // A failure leaves the text and what the next briefing is compared with.
    assert_eq!((s.text.as_str(), s.ts, s.failures), ("one", 1010, 1));
    let f = s.facts(later, 1610).unwrap();
    assert!(f.contains("직전 브리핑(10분 전)과 비교하면 전력이 100 W에서 160 W로 +60 W 변함"), "{}", f);
    assert!(s.is_loud());
    for _ in 0..3 {
        s.refresh(later, 1700, Err(String::new()));
    }
    assert!(!s.is_loud());
    assert!(s.refresh(later, 1800, Ok("two".to_string())));
    assert_eq!(s.failures, 0);
}

#[test]
fn a_request_is_written_and_read() {
    let r = request("be brief", "a \"fact\"\nand more");
    let v = hilmon::json::parse(&r).unwrap();
    let text = v.get("contents").unwrap().as_arr().unwrap()[0]
        .get("parts")
        .unwrap()
        .as_arr()
        .unwrap()[0]
        .get("text")
        .unwrap()
        .as_str()
        .unwrap()
        .to_string();
    assert_eq!(text, "be brief\n\na \"fact\"\nand more");
}

#[test]
fn a_summary_is_published() {
    let v = hilmon::json::parse(&write_json("a \"b\"", 77, "m")).unwrap();
    assert_eq!(v.str_or("text", ""), "a \"b\"");
    assert_eq!(v.num_or("ts", d(0.0)), d(77.0));
    assert_eq!(v.str_or("model", ""), "m");
}

#[test]
fn an_answer_without_text_is_quoted_where_it_can_be_cut() {
    assert_eq!(
        extract(r#"{"candidates":[]}"#).unwrap_err(),
        r#"no text in response: {"candidates":[]}"#
    );
    assert_eq!(
        extract(r#"{"candidates":[{"content":{"parts":[{"text":"  "}]}}]}"#).unwrap_err(),
        "empty text in response"
    );
    assert_eq!(extract(r#"{"error":{}}"#).unwrap_err(), "API error 0: (no message)");
    let whole = format!("{{\"x\":\"{}\"}}", "a".repeat(300));
    assert!(can_extract(&whole));
    assert_eq!(extract(&whole).unwrap_err().len(), "no text in response: ".len() + 200);
    let cut = format!("{{\"x\":\"{}{}\"}}", "a".repeat(193), "가".repeat(10));
    assert!(!can_extract(&cut));
    assert!(can_extract("x"));
}
