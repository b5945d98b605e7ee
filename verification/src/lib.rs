//! Decoder and dissector for a fixed-size binary telemetry record stream,
//! with an ordering monitor over decoded sample timestamps and a pure
//! topic router for publish/subscribe fan-out.

pub mod codec;
pub mod monitor;
pub mod packet;
pub mod pipeline;
pub mod router;
pub mod wire;
