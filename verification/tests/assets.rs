use yuukei::assets::{
    actor_model_route, audio_path_from_command, actor_motion_route, actor_window_url, content_type_for_extension,
    content_type_for_path, encode_path_segment, pack_asset_url, stage_overlay_url,
    str_eq_ignore_ascii_case, validate_wav_extension, validate_wav_extension_of,
};

#[test]
fn pack_asset_routes_percent_encode_path_segments() {
    assert_eq!(actor_model_route("yuukei"), "actors/yuukei/model");
    assert_eq!(
        actor_motion_route("yuukei", "歩く"),
        "actors/yuukei/motions/%E6%AD%A9%E3%81%8F"
    );
    assert_eq!(
        actor_motion_route("actor/with/slash", "walk now"),
        "actors/actor%2Fwith%2Fslash/motions/walk%20now"
    );
}

#[test]
fn path_segments_keep_only_unreserved_characters() {
    assert_eq!(encode_path_segment("aZ09-._~"), "aZ09-._~");
    assert_eq!(encode_path_segment("a b/c?d"), "a%20b%2Fc%3Fd");
    assert_eq!(encode_path_segment(""), "");
}

#[test]
fn pack_asset_urls_and_window_urls() {
    assert_eq!(
        pack_asset_url("actors/yuukei/model"),
        "yuukei-pack://localhost/actors/yuukei/model"
    );
    assert_eq!(actor_window_url("a b"), "index.html?actorId=a%20b");
    assert_eq!(stage_overlay_url("monitor-0"), "index.html?stageOverlayId=monitor-0");
}

#[test]
fn model_extensions_are_served_as_gltf_binary() {
    assert_eq!(content_type_for_extension(Some("vrm")), "model/gltf-binary");
    assert_eq!(content_type_for_extension(Some("vrma")), "model/gltf-binary");
    assert_eq!(content_type_for_extension(Some("glb")), "model/gltf-binary");
    assert_eq!(content_type_for_extension(Some("GLB")), "application/octet-stream");
    assert_eq!(content_type_for_extension(None), "application/octet-stream");
}

#[test]
fn content_type_for_path_reads_the_file_extension() {
    assert_eq!(content_type_for_path("actors/a/model.vrm"), "model/gltf-binary");
    assert_eq!(content_type_for_path("motions/walk.vrma"), "model/gltf-binary");
    assert_eq!(content_type_for_path("readme.txt"), "application/octet-stream");
    assert_eq!(content_type_for_path("glb"), "application/octet-stream");
}

#[test]
fn wav_extension_is_checked_ignoring_ascii_case() {
    assert!(str_eq_ignore_ascii_case("WaV", "wav"));
    assert!(!str_eq_ignore_ascii_case("wave", "wav"));
    assert_eq!(validate_wav_extension_of("a.WAV", Some("WAV")), Ok(()));
    assert_eq!(
        validate_wav_extension_of("a.mp3", Some("mp3")),
        Err("audio.play path is not a wav file: a.mp3".to_string())
    );
    assert_eq!(
        validate_wav_extension_of("noext", None),
        Err("audio.play path is not a wav file: noext".to_string())
    );
}

#[test]
fn wav_paths_are_accepted_by_their_extension() {
    assert_eq!(validate_wav_extension("/tmp/voice.wav"), Ok(()));
    assert_eq!(validate_wav_extension("/tmp/voice.Wav"), Ok(()));
    assert_eq!(
        validate_wav_extension("/tmp/voice.mp3"),
        Err("audio.play path is not a wav file: /tmp/voice.mp3".to_string())
    );
    assert_eq!(
        validate_wav_extension("/tmp/wav"),
        Err("audio.play path is not a wav file: /tmp/wav".to_string())
    );
}

#[test]
fn audio_path_from_command_ignores_non_audio_commands() {
    assert_eq!(audio_path_from_command("dialogue.say", None), Ok(None));
    assert_eq!(audio_path_from_command("dialogue.say", Some("/tmp/a.wav")), Ok(None));
}

#[test]
fn audio_commands_need_a_wav_path() {
    assert_eq!(
        audio_path_from_command("audio.play", None),
        Err("audio.play missing audioPath".to_string())
    );
    assert_eq!(
        audio_path_from_command("audio.play", Some("/tmp/voice.wav")),
        Ok(Some("/tmp/voice.wav".to_string()))
    );
    assert!(audio_path_from_command("audio.play", Some("/tmp/voice.mp3"))
        .unwrap_err()
        .contains("not a wav"));
}

#[test]
fn plain_file_names_are_judged_by_their_extension() {
    assert_eq!(content_type_for_path("model.glb"), "model/gltf-binary");
    assert_eq!(content_type_for_path(".vrm"), "application/octet-stream");
    assert_eq!(validate_wav_extension("voice.Wav"), Ok(()));
    assert!(validate_wav_extension("voice.txt").is_err());
    assert!(validate_wav_extension(".wav").is_err());
    assert_eq!(audio_path_from_command("audio.play", Some("a.WAV")), Ok(Some("a.WAV".to_owned())));
    assert!(audio_path_from_command("audio.play", Some("a.wav.txt")).is_err());
}

#[test]
fn full_paths_are_judged_by_their_last_component() {
    assert_eq!(content_type_for_path("actors/x/model.vrm"), "model/gltf-binary");
    assert_eq!(content_type_for_path("actors/x.vrm/"), "model/gltf-binary");
    assert_eq!(content_type_for_path("actors/x.vrm/.."), "application/octet-stream");
    assert_eq!(validate_wav_extension("/tmp/dir/./voice.WAV"), Ok(()));
    assert!(validate_wav_extension("/tmp/voice.wav/..").is_err());
    assert!(validate_wav_extension("voices.wav/take.mp3").is_err());
    assert!(audio_path_from_command("audio.play", Some("/tmp/a.wav.d/b"))
        .unwrap_err()
        .contains("not a wav"));
    assert_eq!(
        audio_path_from_command("audio.play", Some("sounds/hello.wav")),
        Ok(Some("sounds/hello.wav".to_owned()))
    );
}
