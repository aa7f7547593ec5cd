//! Reminderski: local reminders set with Slack-style time expressions.
//!
//! This crate holds what the application decides: reading time expressions, the reminder file's
//! line format, the settings file, the dashboard's answers, the notification character and the
//! scheduling arithmetic of the message loop. Everything that talks to Windows lives beside it.

pub mod autostart;
pub mod capture;
pub mod clipboard;
pub mod dashboard;
pub mod form;
pub mod notify;
pub mod persona;
pub mod pointer;
pub mod reminder;
pub mod schedule;
pub mod settings;
pub mod store;
pub mod text;
pub mod tray;
pub mod ui;
