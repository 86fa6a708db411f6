use stroke::speech::{pick_by_lowered, pick_voice, LangKey, Voice};

fn voice(lang: &str, local: bool) -> Voice {
    Voice { lang: lang.to_string(), local_service: local }
}

#[test]
fn a_mainland_voice_on_the_device_wins() {
    let voices = vec![
        voice("en-US", true),
        voice("zh-TW", true),
        voice("zh_CN", false),
        voice("ZH-cn", true),
    ];
    assert_eq!(pick_voice(&voices), Some(3));
}

#[test]
fn then_mainland_then_mandarin_then_any_chinese() {
    assert_eq!(pick_voice(&vec![voice("zh-TW", true), voice("zh-CN", false)]), Some(1));
    assert_eq!(pick_voice(&vec![voice("zh-TW", true), voice("cmn-Hans", false)]), Some(1));
    assert_eq!(pick_voice(&vec![voice("en-GB", true), voice("zh-HK", false)]), Some(1));
    assert_eq!(pick_voice(&vec![voice("en-GB", true)]), None);
    assert_eq!(pick_voice(&vec![]), None);
}

fn key(lowered: &str, local: bool) -> LangKey {
    LangKey { lowered: lowered.to_string(), local_service: local }
}

#[test]
fn lowered_tags_are_ranked_by_preference() {
    assert_eq!(pick_by_lowered(&vec![key("zh-cn", false), key("zh_cn", true)]), Some(1));
    assert_eq!(pick_by_lowered(&vec![key("zh-tw", true), key("zh_cn", false)]), Some(1));
    assert_eq!(pick_by_lowered(&vec![key("zh-hk", true), key("cmn", false)]), Some(1));
    assert_eq!(pick_by_lowered(&vec![key("en-us", true), key("zh", false)]), Some(1));
    assert_eq!(pick_by_lowered(&vec![key("ZH-CN", true)]), None, "tags arrive already lower-cased");
    assert_eq!(pick_by_lowered(&vec![]), None);
}
