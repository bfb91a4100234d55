use vstd::prelude::*;

verus! {

/// The screens of the game.
#[derive(Debug, Clone, Copy, PartialEq, Eq, Structural)]
pub enum AppState {
    MainMenu,
    InGame,
    About,
}

impl Default for AppState {
    fn default() -> (s: AppState)
        ensures
            s == AppState::MainMenu,
    {
        AppState::MainMenu
    }
}

/// The buttons of the main menu.
#[derive(Debug, Clone, Copy, PartialEq, Eq, Structural)]
pub enum MenuButton {
    Start,
    About,
    Quit,
}

/// Languages of the About screen.
#[derive(Debug, Clone, Copy, PartialEq, Eq, Structural)]
pub enum AboutLang {
    Zh,
    Ja,
    En,
}

impl Default for AboutLang {
    fn default() -> (l: AboutLang)
        ensures
            l == AboutLang::Zh,
    {
        AboutLang::Zh
    }
}

/// The buttons of the About screen.
#[derive(Debug, Clone, Copy, PartialEq, Eq, Structural)]
pub enum AboutButton {
    Back,
    Lang(AboutLang),
}

/// What a pressed menu button does.
#[derive(Debug, Clone, Copy, PartialEq, Eq, Structural)]
pub enum MenuAction {
    Goto(AppState),
    Exit,
}

/// The main menu: Start enters the game, About shows the About screen, Quit
/// leaves the application.
pub fn menu_press(b: MenuButton) -> (a: MenuAction)
    ensures
        b == MenuButton::Start ==> a == MenuAction::Goto(AppState::InGame),
        b == MenuButton::About ==> a == MenuAction::Goto(AppState::About),
        b == MenuButton::Quit ==> a == MenuAction::Exit,
{
    match b {
        MenuButton::Start => MenuAction::Goto(AppState::InGame),
        MenuButton::About => MenuAction::Goto(AppState::About),
        MenuButton::Quit => MenuAction::Exit,
    }
}

/// What a pressed About button does.
#[derive(Debug, Clone, Copy, PartialEq, Eq, Structural)]
pub enum AboutAction {
    /// Back to the main menu.
    Back,
    /// The text is shown in another language from now on.
    ShowLang(AboutLang),
    /// The language chosen is already shown.
    Nothing,
}

/// The About screen: Back returns to the menu; a language button switches
/// the text to that language unless it is already shown.
pub fn about_press(lang: &mut AboutLang, b: AboutButton) -> (a: AboutAction)
    ensures
        b == AboutButton::Back ==> a == AboutAction::Back && *final(lang) == *old(lang),
        b matches AboutButton::Lang(l) ==> if l != *old(lang) {
            a == AboutAction::ShowLang(l) && *final(lang) == l
        } else {
            a == AboutAction::Nothing && *final(lang) == *old(lang)
        },
{
    match b {
        AboutButton::Back => AboutAction::Back,
        AboutButton::Lang(l) => {
            if *lang != l {
                *lang = l;
                AboutAction::ShowLang(l)
            } else {
                AboutAction::Nothing
            }
        },
    }
}

} // verus!
