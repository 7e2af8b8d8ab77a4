use vstd::prelude::*;

verus! {

/// The phases of the application, in the order in which it goes through them.
#[derive(Clone, Copy, PartialEq, Eq, Structural, Debug, Hash, Default)]
pub enum MyState {
    #[default]
    LoadAssets,
    InitApp,
    GameStart,
}

/// The phase that follows asset loading.
pub struct AfterLoadAssets<T> {
    pub state: T,
}

/// The phase that follows application set-up.
pub struct AfterInitApp<T> {
    pub state: T,
}

/// The phase to switch to once set-up is done: the one registered, if any.
pub fn goto_state_after_init_app(o_after_init_app: Option<&AfterInitApp<MyState>>) -> (r: Option<
    MyState,
>)
    ensures
        r == match o_after_init_app {
            Some(a) => Some(a.state),
            None => None,
        },
{
    match o_after_init_app {
        Some(after_init_app) => Some(after_init_app.state),
        None => None,
    }
}

} // verus!
