//! The control-surface message shapes: responses to client requests
//! and the event-subscription stream. The transport and its
//! serialization live outside the engine; these are the plain shapes
//! it carries.

use vstd::prelude::*;

use crate::state::WmEvent;
use crate::tree::TilingDirection;

verus! {

/// Default port of the control surface, overridable by configuration.
pub const DEFAULT_IPC_PORT: u32 = 6123;

/// A lightweight description of one container, as handed to clients.
#[derive(Clone, Debug)]
pub struct ContainerDto {
    /// The container's identifier.
    pub id: usize,
    /// Its parent's identifier, when attached.
    pub parent: Option<usize>,
    /// Identifiers of its children, in order.
    pub children: Vec<usize>,
}

/// One binding-mode entry of the configuration.
#[derive(Clone, Debug)]
pub struct BindingModeConfig {
    /// Name the mode is activated by.
    pub name: String,
}

/// Top-level message from the manager to a client.
pub enum ServerMessage {
    ClientResponse(ClientResponseMessage),
    EventSubscription(EventSubscriptionMessage),
}

/// Reply to one client request.
pub struct ClientResponseMessage {
    /// The request being answered, echoed back.
    pub client_message: String,
    /// The payload, when the request succeeded.
    pub data: Option<ClientResponseData>,
    /// The failure description, when it did not.
    pub error: Option<String>,
    /// Whether the request succeeded.
    pub success: bool,
}

/// The payload of a successful client response.
pub enum ClientResponseData {
    AppMetadata(AppMetadataData),
    BindingModes(BindingModesData),
    Command(CommandData),
    EventSubscribe(EventSubscribeData),
    EventUnsubscribe,
    Focused(FocusedData),
    Monitors(MonitorsData),
    TilingDirection(TilingDirectionData),
    Windows(WindowsData),
    Workspaces(WorkspacesData),
    Paused(bool),
}

/// The manager's version.
pub struct AppMetadataData {
    pub version: String,
}

/// The configured binding modes.
pub struct BindingModesData {
    pub binding_modes: Vec<BindingModeConfig>,
}

/// The container a command acted on.
pub struct CommandData {
    pub subject_container_id: usize,
}

/// The identifier of a fresh event subscription.
pub struct EventSubscribeData {
    pub subscription_id: u64,
}

/// The focused container.
pub struct FocusedData {
    pub focused: ContainerDto,
}

/// Every monitor container.
pub struct MonitorsData {
    pub monitors: Vec<ContainerDto>,
}

/// The effective tiling direction at a container.
pub struct TilingDirectionData {
    pub tiling_direction: TilingDirection,
    pub direction_container: ContainerDto,
}

/// Every window container.
pub struct WindowsData {
    pub windows: Vec<ContainerDto>,
}

/// Every workspace container.
pub struct WorkspacesData {
    pub workspaces: Vec<ContainerDto>,
}

/// One message of the event-subscription stream.
pub struct EventSubscriptionMessage {
    /// The delivered event, when one is carried.
    pub data: Option<WmEvent>,
    /// The failure description, when delivery failed.
    pub error: Option<String>,
    /// Which subscription the message belongs to.
    pub subscription_id: u64,
    /// Whether the delivery succeeded.
    pub success: bool,
}

impl ContainerDto {
    /// Describe the node `i` of `t`.
    pub fn of_node(t: &crate::tree::Tree, i: usize) -> (r: ContainerDto)
        requires
            t.valid(i as int),
        ensures
            r.id == i,
            r.parent == t.node(i as int).parent,
            r.children@ == t.children_of(i as int),
    {
        let mut children: Vec<usize> = Vec::new();
        let n = t.nodes[i].children.len();
        let mut k: usize = 0;
        while k < n
            invariant
                t.valid(i as int),
                n == t.children_of(i as int).len(),
                0 <= k <= n,
                children@ == t.children_of(i as int).take(k as int),
            decreases n - k,
        {
            children.push(t.nodes[i].children[k]);
            proof {
                assert(t.children_of(i as int).take(k as int + 1) =~= t.children_of(
                    i as int,
                ).take(k as int).push(t.children_of(i as int)[k as int]));
            }
            k += 1;
        }
        proof {
            assert(t.children_of(i as int).take(n as int) =~= t.children_of(i as int));
        }
        ContainerDto { id: i, parent: t.nodes[i].parent, children }
    }
}

} // verus!
