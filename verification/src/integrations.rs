//! Fixed locations of the file-manager integration: where its configuration
//! and the context plugin are written.

use vstd::prelude::*;

verus! {

/// Paths of the file-manager configuration and its context plugin.
#[derive(Clone, Debug)]
pub struct YaziIntegration {
    pub config_path: String,
    pub context_plugin_path: String,
}

impl YaziIntegration {
    /// The integration always lives under the user's configuration directory.
    pub fn new() -> (r: YaziIntegration)
        ensures
            r.config_path@ == "~/.config/yazi/yazi.toml"@,
            r.context_plugin_path@ == "~/.config/yazi/plugins/devys-context.yazi/"@,
    {
        YaziIntegration {
            config_path: String::from_str("~/.config/yazi/yazi.toml"),
            context_plugin_path: String::from_str("~/.config/yazi/plugins/devys-context.yazi/"),
        }
    }
}

} // verus!