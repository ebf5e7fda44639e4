//! Verified core of a handwriting and tone tutor for simplified Chinese.

pub mod text;
pub mod pinyin;
pub mod time;
pub mod decompose;
pub mod settings;
pub mod grade;
pub mod tone;
pub mod progress;
pub mod dataset;
pub mod prepare;
pub mod vocab;
pub mod curriculum;
pub mod trainer;
pub mod order;
pub mod lexicon;
pub mod artifact;
pub mod outline;
pub mod ink;
