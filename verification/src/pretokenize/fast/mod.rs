//! The pretokenizers.

pub mod bert;
pub mod dispatch;
pub mod level1;
pub mod r50k;
pub mod scheme;
pub mod superbpe_stage1;
pub mod superword;
pub mod superword_bounded;
