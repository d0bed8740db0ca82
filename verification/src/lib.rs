use vstd::prelude::*;

pub mod text;
pub mod share;
pub mod onboarding;
pub mod settings;
pub mod notify;
pub mod livesync;
pub mod geom;
pub mod selection;
pub mod query;
pub mod productivity;
pub mod nl_edit;
pub mod edit;
pub mod qr;
pub mod snapshot;
pub mod outline;
pub mod open;
pub mod startscreen;
pub mod review_panel;
pub mod plugin_panel;
pub mod snap;
pub mod measure;
pub mod cli;
pub mod overlay;
pub mod session;
pub mod ops;
pub mod menu;
pub mod replay;
pub mod streamed;
pub mod store;
pub mod netlight;
pub mod pcell_panel;

verus! {

} // verus!
