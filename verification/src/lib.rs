pub mod parse;
pub mod pipeline;
pub mod record;
pub mod rfc2822;
