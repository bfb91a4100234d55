use monster_hell::flow::{
    about_press, menu_press, AboutAction, AboutButton, AboutLang, AppState, MenuAction, MenuButton,
};
use monster_hell::hermes::{AgentRole, HermesEvent, HermesTopic};

#[test]
fn menu_buttons_lead_to_their_screens() {
    assert_eq!(menu_press(MenuButton::Start), MenuAction::Goto(AppState::InGame));
    assert_eq!(menu_press(MenuButton::About), MenuAction::Goto(AppState::About));
    assert_eq!(menu_press(MenuButton::Quit), MenuAction::Exit);
    assert_eq!(AppState::default(), AppState::MainMenu);
}

#[test]
fn about_language_switches_once() {
    let mut lang = AboutLang::default();
    assert_eq!(lang, AboutLang::Zh);
    assert_eq!(about_press(&mut lang, AboutButton::Lang(AboutLang::En)), AboutAction::ShowLang(AboutLang::En));
    assert_eq!(lang, AboutLang::En);
    assert_eq!(about_press(&mut lang, AboutButton::Lang(AboutLang::En)), AboutAction::Nothing);
    assert_eq!(about_press(&mut lang, AboutButton::Back), AboutAction::Back);
    assert_eq!(lang, AboutLang::En);
}

#[test]
fn hermes_events_carry_their_fields() {
    let e = HermesEvent {
        topic: HermesTopic::ProducerGate,
        from: AgentRole::Producer,
        message: "进入下一层：Floor 2".to_string(),
    };
    let c = e.clone();
    assert_eq!(c.topic, HermesTopic::ProducerGate);
    assert_eq!(c.from, AgentRole::Producer);
    assert_eq!(c.message, "进入下一层：Floor 2");
    let _ = monster_hell::hermes::HermesPlugin;
}
