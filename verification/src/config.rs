//! What remote execution is told: its settings, the build that it belongs to, the machine that it
//! runs on and the command.
use vstd::prelude::*;

use crate::environment::env_views;
use crate::local_path::LocalPath;
use crate::mapper::raw_paths;
use crate::messages::pair_texts;
use crate::os_text::{os_views, OsText, OsView};

verus! {

/// The settings of remote execution.
#[derive(Debug)]
pub struct RemoteBuildConfig {
    /// The address of the remote service.
    pub endpoint: String,
    /// The instance of the service that all requests go to; it can be empty.
    pub instance_name: String,
    /// Whether results can come from the cache of the service and go into it.
    pub remote_cache: bool,
    /// The key that all requests carry.
    pub api_key: Option<String>,
    /// More names and values that all requests carry.
    pub headers: Vec<(String, String)>,
    /// Properties of the machine that the command is to run on.
    pub exec_properties: Vec<(String, String)>,
    /// Whether a command that fails remotely is run here.
    pub fallback_local: bool,
}

/// The content of a [`RemoteBuildConfig`].
#[verifier::ext_equal]
pub struct ConfigView {
    pub endpoint: Seq<char>,
    pub instance_name: Seq<char>,
    pub remote_cache: bool,
    pub api_key: Option<Seq<char>>,
    pub headers: Seq<(Seq<char>, Seq<char>)>,
    pub exec_properties: Seq<(Seq<char>, Seq<char>)>,
    pub fallback_local: bool,
}

impl View for RemoteBuildConfig {
    type V = ConfigView;

    open spec fn view(&self) -> ConfigView {
        ConfigView {
            endpoint: self.endpoint@,
            instance_name: self.instance_name@,
            remote_cache: self.remote_cache,
            api_key: match self.api_key {
                Some(key) => Some(key@),
                None => None,
            },
            headers: pair_texts(self.headers@),
            exec_properties: pair_texts(self.exec_properties@),
            fallback_local: self.fallback_local,
        }
    }
}

/// The build that a command belongs to.
#[derive(Debug)]
pub struct RemoteExecutorContext {
    pub rustc_path: LocalPath,
    pub target_dir: LocalPath,
    pub build_dir: LocalPath,
    pub sysroot: LocalPath,
    pub package_root: LocalPath,
    /// What the command is to write.
    pub outputs: Vec<LocalPath>,
}

/// The content of a [`RemoteExecutorContext`].
#[verifier::ext_equal]
pub struct ContextView {
    pub rustc_path: Seq<u8>,
    pub target_dir: Seq<u8>,
    pub build_dir: Seq<u8>,
    pub sysroot: Seq<u8>,
    pub package_root: Seq<u8>,
    pub outputs: Seq<Seq<u8>>,
}

impl View for RemoteExecutorContext {
    type V = ContextView;

    open spec fn view(&self) -> ContextView {
        ContextView {
            rustc_path: self.rustc_path@,
            target_dir: self.target_dir@,
            build_dir: self.build_dir@,
            sysroot: self.sysroot@,
            package_root: self.package_root@,
            outputs: raw_paths(self.outputs@),
        }
    }
}

/// The machine that this program runs on.
#[derive(Debug)]
pub struct Host {
    /// The name of the operating system.
    pub os: String,
    /// The name of the processor architecture.
    pub arch: String,
    /// The search path for programs that this program was started with.
    pub path: Option<Vec<u8>>,
    /// The extension of programs, where they have one.
    pub exe_extension: Vec<u8>,
}

/// The content of a [`Host`].
#[verifier::ext_equal]
pub struct HostView {
    pub os: Seq<char>,
    pub arch: Seq<char>,
    pub path: Option<Seq<u8>>,
    pub exe_extension: Seq<u8>,
}

impl View for Host {
    type V = HostView;

    open spec fn view(&self) -> HostView {
        HostView {
            os: self.os@,
            arch: self.arch@,
            path: match self.path {
                Some(raw) => Some(raw@),
                None => None,
            },
            exe_extension: self.exe_extension@,
        }
    }
}

/// A command.
#[derive(Debug)]
pub struct Invocation {
    pub program: LocalPath,
    pub args: Vec<OsText>,
    /// The variables to set, or to take out of the environment, each name once.
    pub envs: Vec<(String, Option<OsText>)>,
    pub cwd: Option<LocalPath>,
}

/// The content of an [`Invocation`].
#[verifier::ext_equal]
pub struct InvocationView {
    pub program: Seq<u8>,
    pub args: Seq<OsView>,
    pub envs: Seq<(Seq<char>, Option<OsView>)>,
    pub cwd: Option<Seq<u8>>,
}

impl View for Invocation {
    type V = InvocationView;

    open spec fn view(&self) -> InvocationView {
        InvocationView {
            program: self.program@,
            args: os_views(self.args@),
            envs: env_views(self.envs@),
            cwd: match self.cwd {
                Some(path) => Some(path@),
                None => None,
            },
        }
    }
}

} // verus!
