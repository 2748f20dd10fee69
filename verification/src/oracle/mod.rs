//! Recorded sessions and their comparison.

use vstd::prelude::*;
use crate::number;

pub mod band;
pub mod differ;
pub mod reasons;
pub mod recorder;

verus! {

broadcast use vstd::string::group_string_axioms;

/// A recorded event and when it took place.
#[derive(Debug)]
pub struct OracleEvent {
    /// Seconds since the recording started.
    pub ts: number::Double,
    pub event: OracleEventType,
}

/// What took place.
#[derive(Debug)]
pub enum OracleEventType {
    /// An offer was made.
    SdpOffer { sdp: String },
    /// An answer was received.
    SdpAnswer { sdp: String },
    /// A candidate was made or received.
    IceCandidate { candidate: String, sdp_m_line_index: u32, direction: String },
    /// Input was received from the data channel.
    Input { raw: String },
    /// The estimate of the bandwidth changed.
    BweUpdate { bitrate_bps: u64 },
    /// A property of the encoder changed.
    EncoderProp { property: String, value: String },
    /// A message was sent on the data channel.
    DataChannelSend { message: String },
    /// Statistics were reported.
    Stats { json: String },
    /// The pipeline changed its state.
    PipelineState { state: String },
    /// A signaling message was sent or received.
    Signaling { direction: String, message: String },
}

/// What an event says, with texts as sequences of characters.
pub enum EventView {
    SdpOffer { sdp: Seq<char> },
    SdpAnswer { sdp: Seq<char> },
    IceCandidate { candidate: Seq<char>, sdp_m_line_index: u32, direction: Seq<char> },
    Input { raw: Seq<char> },
    BweUpdate { bitrate_bps: u64 },
    EncoderProp { property: Seq<char>, value: Seq<char> },
    DataChannelSend { message: Seq<char> },
    Stats { json: Seq<char> },
    PipelineState { state: Seq<char> },
    Signaling { direction: Seq<char>, message: Seq<char> },
}

impl View for OracleEventType {
    type V = EventView;

    open spec fn view(&self) -> EventView {
        match self {
            OracleEventType::SdpOffer { sdp } => EventView::SdpOffer { sdp: sdp@ },
            OracleEventType::SdpAnswer { sdp } => EventView::SdpAnswer { sdp: sdp@ },
            OracleEventType::IceCandidate { candidate, sdp_m_line_index, direction } => {
                EventView::IceCandidate {
                    candidate: candidate@,
                    sdp_m_line_index: *sdp_m_line_index,
                    direction: direction@,
                }
            },
            OracleEventType::Input { raw } => EventView::Input { raw: raw@ },
            OracleEventType::BweUpdate { bitrate_bps } => EventView::BweUpdate {
                bitrate_bps: *bitrate_bps,
            },
            OracleEventType::EncoderProp { property, value } => EventView::EncoderProp {
                property: property@,
                value: value@,
            },
            OracleEventType::DataChannelSend { message } => EventView::DataChannelSend {
                message: message@,
            },
            OracleEventType::Stats { json } => EventView::Stats { json: json@ },
            OracleEventType::PipelineState { state } => EventView::PipelineState { state: state@ },
            OracleEventType::Signaling { direction, message } => EventView::Signaling {
                direction: direction@,
                message: message@,
            },
        }
    }
}

impl Clone for OracleEventType {
    fn clone(&self) -> (r: Self)
        ensures
            r@ == self@,
    {
        match self {
            OracleEventType::SdpOffer { sdp } => OracleEventType::SdpOffer { sdp: sdp.clone() },
            OracleEventType::SdpAnswer { sdp } => OracleEventType::SdpAnswer { sdp: sdp.clone() },
            OracleEventType::IceCandidate { candidate, sdp_m_line_index, direction } => {
                OracleEventType::IceCandidate {
                    candidate: candidate.clone(),
                    sdp_m_line_index: *sdp_m_line_index,
                    direction: direction.clone(),
                }
            },
            OracleEventType::Input { raw } => OracleEventType::Input { raw: raw.clone() },
            OracleEventType::BweUpdate { bitrate_bps } => OracleEventType::BweUpdate {
                bitrate_bps: *bitrate_bps,
            },
            OracleEventType::EncoderProp { property, value } => OracleEventType::EncoderProp {
                property: property.clone(),
                value: value.clone(),
            },
            OracleEventType::DataChannelSend { message } => OracleEventType::DataChannelSend {
                message: message.clone(),
            },
            OracleEventType::Stats { json } => OracleEventType::Stats { json: json.clone() },
            OracleEventType::PipelineState { state } => OracleEventType::PipelineState {
                state: state.clone(),
            },
            OracleEventType::Signaling { direction, message } => OracleEventType::Signaling {
                direction: direction.clone(),
                message: message.clone(),
            },
        }
    }
}

/// What a recorded event says, and when it took place.
pub struct OracleEventView {
    pub ts: number::Double,
    pub event: EventView,
}

impl View for OracleEvent {
    type V = OracleEventView;

    open spec fn view(&self) -> OracleEventView {
        OracleEventView { ts: self.ts, event: self.event@ }
    }
}

impl Clone for OracleEvent {
    fn clone(&self) -> (r: Self)
        ensures
            r@ == self@,
    {
        OracleEvent { ts: self.ts, event: self.event.clone() }
    }
}

} // verus!
