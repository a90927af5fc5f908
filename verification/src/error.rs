//! Errors of the copy pipeline, split into two kinds: those that retrying may cure,
//! and those that retrying never will.

use vstd::prelude::*;
use crate::i18n::Locale;
use crate::text::{push_str};

verus! {

/// Errors that a retry may cure.
#[derive(Debug, Clone, Copy, PartialEq, Eq, Structural)]
pub enum RetryableKind {
    CopyIo,
    VerifyMismatch,
    DeviceRemoved,
    DestinationUnwritable,
}

/// Errors that no retry will cure.
#[derive(Debug, Clone, Copy, PartialEq, Eq, Structural)]
pub enum TerminalKind {
    NoSource,
    NoNewSource,
    InsufficientSpace,
    SourceUnreadable,
    InvalidConfig,
    Unsupported,
}

/// Where an error happened: the file, the destination, and the underlying cause.
#[derive(Debug, Clone, PartialEq, Eq)]
pub struct ErrorContext {
    pub path: Option<String>,
    pub destination: Option<String>,
    pub cause: Option<String>,
}

/// An optional string by view.
pub open spec fn osv(o: Option<String>) -> Option<Seq<char>> {
    match o {
        Some(s) => Some(s@),
        None => None,
    }
}

impl ErrorContext {
    /// A context with nothing filled in.
    pub fn new() -> (r: ErrorContext)
        ensures
            r.path is None,
            r.destination is None,
            r.cause is None,
    {
        ErrorContext { path: None, destination: None, cause: None }
    }

    /// The same context with the file path set.
    pub fn path(self, p: &str) -> (r: ErrorContext)
        ensures
            osv(r.path) == Some(p@),
            r.destination == self.destination,
            r.cause == self.cause,
    {
        ErrorContext { path: Some(String::from_str(p)), destination: self.destination, cause: self.cause }
    }

    /// The same context with the destination set.
    pub fn destination(self, p: &str) -> (r: ErrorContext)
        ensures
            osv(r.destination) == Some(p@),
            r.path == self.path,
            r.cause == self.cause,
    {
        ErrorContext { path: self.path, destination: Some(String::from_str(p)), cause: self.cause }
    }

    /// The same context with the cause set.
    pub fn cause(self, c: &str) -> (r: ErrorContext)
        ensures
            osv(r.cause) == Some(c@),
            r.path == self.path,
            r.destination == self.destination,
    {
        ErrorContext { path: self.path, destination: self.destination, cause: Some(String::from_str(c)) }
    }
}

/// An error of the copy pipeline: its kind and where it happened.
#[derive(Debug, Clone, PartialEq, Eq)]
pub enum CoreError {
    Retryable(RetryableKind, ErrorContext),
    Terminal(TerminalKind, ErrorContext),
}

/// The sentence for each kind of error, without its context.
pub open spec fn kind_text(e: CoreError, lang: Locale) -> Seq<char> {
    match e {
        CoreError::Retryable(RetryableKind::CopyIo, _) => lang_text(lang, "拷贝过程中读写失败"@, "A read or write failed while copying"@),
        CoreError::Retryable(RetryableKind::VerifyMismatch, _) => lang_text(lang, "校验不一致，重试后仍未通过"@, "Verification still did not match after retrying"@),
        CoreError::Retryable(RetryableKind::DeviceRemoved, _) => lang_text(lang, "设备在任务进行中被移除"@, "The device was removed while the task was running"@),
        CoreError::Retryable(RetryableKind::DestinationUnwritable, _) => lang_text(lang, "目的地当前不可写入"@, "The destination is not writable right now"@),
        CoreError::Terminal(TerminalKind::NoSource, _) => lang_text(lang, "源设备上没有符合条件的素材"@, "No matching media on the source device"@),
        CoreError::Terminal(TerminalKind::NoNewSource, _) => lang_text(lang, "没有新素材，本次无需拷贝"@, "Nothing new to copy this time"@),
        CoreError::Terminal(TerminalKind::InsufficientSpace, _) => lang_text(lang, "目的地可用空间不足"@, "Not enough free space at the destination"@),
        CoreError::Terminal(TerminalKind::SourceUnreadable, _) => lang_text(lang, "源设备无法读取"@, "The source device cannot be read"@),
        CoreError::Terminal(TerminalKind::InvalidConfig, _) => lang_text(lang, "配置不合法"@, "The configuration is not valid"@),
        CoreError::Terminal(TerminalKind::Unsupported, _) => lang_text(lang, "当前平台尚不支持该功能"@, "This platform does not support that yet"@),
    }
}

/// The text for the chosen language.
pub open spec fn lang_text(lang: Locale, zh: Seq<char>, en: Seq<char>) -> Seq<char> {
    match lang {
        Locale::Zh => zh,
        Locale::En => en,
    }
}

/// The context of an error.
pub open spec fn ctx_of(e: CoreError) -> ErrorContext {
    match e {
        CoreError::Retryable(_, c) => c,
        CoreError::Terminal(_, c) => c,
    }
}

/// The full sentence: the kind's sentence, then the file path in brackets if known.
pub open spec fn core_error_text(e: CoreError, lang: Locale) -> Seq<char> {
    let d = kind_text(e, lang);
    match (ctx_of(e).path, lang) {
        (Some(p), Locale::Zh) => d + "（"@ + p@ + "）"@,
        (Some(p), Locale::En) => d + " ("@ + p@ + ")"@,
        (None, _) => d,
    }
}

impl CoreError {
    /// A retryable error without context.
    pub fn retryable(kind: RetryableKind) -> (r: CoreError)
        ensures
            r matches CoreError::Retryable(k, c) && k == kind && c.path is None && c.destination is None && c.cause is None,
    {
        CoreError::Retryable(kind, ErrorContext::new())
    }

    /// A terminal error without context.
    pub fn terminal(kind: TerminalKind) -> (r: CoreError)
        ensures
            r matches CoreError::Terminal(k, c) && k == kind && c.path is None && c.destination is None && c.cause is None,
    {
        CoreError::Terminal(kind, ErrorContext::new())
    }

    /// The same error with its context replaced.
    pub fn with_context(self, ctx: ErrorContext) -> (r: CoreError)
        ensures
            r == (match self {
                CoreError::Retryable(k, _) => CoreError::Retryable(k, ctx),
                CoreError::Terminal(k, _) => CoreError::Terminal(k, ctx),
            }),
    {
        match self {
            CoreError::Retryable(k, _) => CoreError::Retryable(k, ctx),
            CoreError::Terminal(k, _) => CoreError::Terminal(k, ctx),
        }
    }

    /// Whether a retry may cure this error.
    pub fn is_retryable(&self) -> (r: bool)
        ensures
            r == (self is Retryable),
    {
        match self {
            CoreError::Retryable(..) => true,
            CoreError::Terminal(..) => false,
        }
    }

    /// Where the error happened.
    pub fn context(&self) -> (r: &ErrorContext)
        ensures
            *r == ctx_of(*self),
    {
        match self {
            CoreError::Retryable(_, c) => c,
            CoreError::Terminal(_, c) => c,
        }
    }

    fn kind_sentence(&self, lang: Locale) -> (r: &'static str)
        ensures
            r@ == kind_text(*self, lang),
    {
        match self {
            CoreError::Retryable(RetryableKind::CopyIo, _) => lang.pick("拷贝过程中读写失败", "A read or write failed while copying"),
            CoreError::Retryable(RetryableKind::VerifyMismatch, _) => lang.pick("校验不一致，重试后仍未通过", "Verification still did not match after retrying"),
            CoreError::Retryable(RetryableKind::DeviceRemoved, _) => lang.pick("设备在任务进行中被移除", "The device was removed while the task was running"),
            CoreError::Retryable(RetryableKind::DestinationUnwritable, _) => lang.pick("目的地当前不可写入", "The destination is not writable right now"),
            CoreError::Terminal(TerminalKind::NoSource, _) => lang.pick("源设备上没有符合条件的素材", "No matching media on the source device"),
            CoreError::Terminal(TerminalKind::NoNewSource, _) => lang.pick("没有新素材，本次无需拷贝", "Nothing new to copy this time"),
            CoreError::Terminal(TerminalKind::InsufficientSpace, _) => lang.pick("目的地可用空间不足", "Not enough free space at the destination"),
            CoreError::Terminal(TerminalKind::SourceUnreadable, _) => lang.pick("源设备无法读取", "The source device cannot be read"),
            CoreError::Terminal(TerminalKind::InvalidConfig, _) => lang.pick("配置不合法", "The configuration is not valid"),
            CoreError::Terminal(TerminalKind::Unsupported, _) => lang.pick("当前平台尚不支持该功能", "This platform does not support that yet"),
        }
    }

    /// One sentence for the user, in the chosen language, naming the file when known.
    pub fn describe(&self, lang: Locale) -> (r: String)
        ensures
            r@ == core_error_text(*self, lang),
    {
        let d = self.kind_sentence(lang);
        let mut s = String::new();
        push_str(&mut s, d);
        match (&self.context().path, lang) {
            (Some(p), Locale::Zh) => {
                push_str(&mut s, "（");
                push_str(&mut s, p.as_str());
                push_str(&mut s, "）");
            },
            (Some(p), Locale::En) => {
                push_str(&mut s, " (");
                push_str(&mut s, p.as_str());
                push_str(&mut s, ")");
            },
            (None, _) => {},
        }
        proof {
            assert(s@ =~= core_error_text(*self, lang));
        }
        s
    }
}

} // verus!
