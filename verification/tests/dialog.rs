use claymore::dialog::{bark, SceneId, SceneState};

#[test]
fn raki_has_a_choice_at_the_end() {
    let mut s = SceneState::new(SceneId::RakiJoin);
    while s.advance() {}
    assert!(s.at_end());
    assert_eq!(s.choices().len(), 2);
}

#[test]
fn ophelia_ends_in_a_fight() {
    let mut s = SceneState::new(SceneId::OpheliaIntro);
    while s.advance() {}
    assert_eq!(s.choices()[0].label, "END HER");
}

#[test]
fn bark_covers_raise_and_sever() {
    assert_eq!(bark("trans"), Some("Clare opens the bar."));
    assert_eq!(bark("sever"), Some("The arm learns it is optional."));
    assert!(bark("hit").is_none());
}

#[test]
fn choices_only_at_the_end() {
    let mut s = SceneState::new(SceneId::RakiJoin);
    assert!(!s.at_end());
    assert!(s.choices().is_empty());
    assert!(s.current().is_some());
    let n = s.lines().len();
    let mut steps = 0;
    while s.advance() {
        steps += 1;
    }
    assert_eq!(steps, n - 1);
    assert!(!s.advance());
    assert!(s.at_end());
}

#[test]
fn scenes_end_after_their_lines() {
    for id in [SceneId::RakiJoin, SceneId::OpheliaIntro, SceneId::TownDoga] {
        let mut s = SceneState::new(id);
        let n = s.lines().len();
        let mut k = 0;
        while !s.at_end() {
            assert!(s.advance());
            k += 1;
        }
        assert_eq!(k, n - 1);
        let before = s.clone();
        assert!(!s.advance());
        assert_eq!(s.step, before.step);
    }
}
