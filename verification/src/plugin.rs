//! Plugin-side notification kinds and configuration.
use vstd::prelude::*;
use vstd::string::StringSliceAdditionalSpecFns;
use crate::channel::{Sender, PushError, push_outcome, push_allowed};
use crate::transaction::ReplicaTransactionInfo;
use crate::encoding::{
    ProtobufMessage, ReplicaAccountInfo, ReplicaEntryInfo, ReplicaBlockInfo, SlotStatus, Timestamp,
};

verus! {

/// Kind of a Geyser notification carried by a channel message.
#[derive(Debug, Clone, Copy, PartialEq, Eq, Structural)]
pub enum PluginNotification {
    Slot,
    Account,
    Transaction,
    Entry,
    BlockMeta,
}

/// Which encoder turns plugin messages into protobuf bytes.
#[derive(Debug, Clone, Copy, PartialEq, Eq, Structural)]
pub enum ProtobufEncoder {
    Prost,
    Raw,
}

/// Logging configuration of the plugin.
#[derive(Debug, Clone)]
pub struct ConfigLog {
    /// Log level
    pub level: String,
}

impl ConfigLog {
    /// The default log level is `info`.
    pub fn default_config() -> (c: ConfigLog)
        ensures
            c.level@ == "info"@,
    {
        ConfigLog { level: String::from_str("info") }
    }
}

/// Limits and encoder of the plugin's message channel.
#[derive(Debug, Clone, Copy, PartialEq, Eq, Structural)]
pub struct ConfigChannel {
    pub encoder: ProtobufEncoder,
    pub max_messages: usize,
    pub max_slots: usize,
    /// In bytes; a `u64` so that the default of 10 GiB fits on every target.
    pub max_bytes: u64,
}

impl ConfigChannel {
    /// Raw encoder, 2^21 messages, 100 slots and 10 GiB.
    pub fn default_config() -> (c: ConfigChannel)
        ensures
            c.encoder == ProtobufEncoder::Raw,
            c.max_messages == 2_097_152,
            c.max_slots == 100,
            c.max_bytes == 10 * 1024 * 1024 * 1024,
    {
        ConfigChannel {
            encoder: ProtobufEncoder::Raw,
            max_messages: 2_097_152,
            max_slots: 100,
            max_bytes: 10 * 1024 * 1024 * 1024,
        }
    }

    /// Name of an encoder in the configuration file: `prost` or `raw`.
    pub fn encoder_from_str(value: &str) -> (r: Option<ProtobufEncoder>)
        ensures
            r == (if value@ == "prost"@ {
                Some(ProtobufEncoder::Prost)
            } else if value@ == "raw"@ {
                Some(ProtobufEncoder::Raw)
            } else {
                None::<ProtobufEncoder>
            }),
    {
        let b = value.as_bytes();
        proof {
            reveal_strlit("prost");
            reveal_strlit("raw");
            lemma_ascii_bytes(value, "prost");
            lemma_ascii_bytes(value, "raw");
            vstd::utf8::is_ascii_chars_encode_utf8("prost"@);
            vstd::utf8::is_ascii_chars_encode_utf8("raw"@);
            assert("prost".spec_bytes() =~= seq![112u8, 114u8, 111u8, 115u8, 116u8]);
            assert("raw".spec_bytes() =~= seq![114u8, 97u8, 119u8]);
        }
        if b.len() == 5 && b[0] == 112 && b[1] == 114 && b[2] == 111 && b[3] == 115 && b[4] == 116 {
            assert(b@ =~= "prost".spec_bytes());
            Some(ProtobufEncoder::Prost)
        } else if b.len() == 3 && b[0] == 114 && b[1] == 97 && b[2] == 119 {
            assert(b@ =~= "raw".spec_bytes());
            Some(ProtobufEncoder::Raw)
        } else {
            assert(b@ != "prost".spec_bytes());
            assert(b@ != "raw".spec_bytes());
            None
        }
    }
}

/// Two strings are equal exactly when their UTF-8 bytes are equal.
pub proof fn lemma_ascii_bytes(s: &str, lit: &str)
    ensures
        s@ == lit@ <==> s.spec_bytes() == lit.spec_bytes(),
{
    vstd::utf8::encode_utf8_decode_utf8(s@);
    vstd::utf8::encode_utf8_decode_utf8(lit@);
}


/// The plugin: its channel and the encoder of its messages.
pub struct Plugin {
    pub messages: Sender,
    pub encoder: ProtobufEncoder,
}

impl Plugin {
    /// A plugin with an empty channel configured by `config`.
    pub fn new(config: ConfigChannel) -> (p: Plugin)
        requires
            config.max_messages <= usize::MAX / 2 + 1,
        ensures
            p.messages.wf(),
            p.encoder == config.encoder,
            p.messages.window().len() == 0,
            crate::channel::is_power_of_two(p.messages.cap()),
            p.messages.cap() >= config.max_messages,
            p.messages.cap() == 1 || p.messages.cap() / 2 < config.max_messages,
            p.messages.head_pos() == p.messages.cap(),
            p.messages.tail_pos() == p.messages.cap(),
            p.messages.slot_index().len() == 0,
            !p.messages.is_closed(),
            p.messages.max_slots() == config.max_slots,
            p.messages.max_bytes() == config.max_bytes,
    {
        Plugin { messages: Sender::new(config), encoder: config.encoder }
    }

    /// An account update: pushed unless it comes from the startup snapshot.
    pub fn update_account(
        &mut self,
        account: ReplicaAccountInfo,
        slot: u64,
        is_startup: bool,
        created_at: Timestamp,
    ) -> (r: Result<(), PushError>)
        requires
            push_allowed(old(self).messages, ProtobufMessage::Account { slot, account }),
        ensures
            final(self).encoder == old(self).encoder,
            is_startup ==> r is Ok && final(self).messages == old(self).messages,
            !is_startup ==> push_outcome(
                old(self).messages,
                final(self).messages,
                ProtobufMessage::Account { slot, account },
                created_at,
                r,
            ),
    {
        if is_startup {
            return Ok(());
        }
        let m = ProtobufMessage::Account { slot, account };
        self.messages.push_with_timestamp(&m, self.encoder, created_at)
    }

    /// A slot status update.
    pub fn update_slot_status(
        &mut self,
        slot: u64,
        parent: Option<u64>,
        status: SlotStatus,
        created_at: Timestamp,
    ) -> (r: Result<(), PushError>)
        requires
            push_allowed(old(self).messages, ProtobufMessage::Slot { slot, parent, status }),
        ensures
            final(self).encoder == old(self).encoder,
            push_outcome(old(self).messages, final(self).messages, ProtobufMessage::Slot { slot, parent, status }, created_at, r),
    {
        let m = ProtobufMessage::Slot { slot, parent, status };
        self.messages.push_with_timestamp(&m, self.encoder, created_at)
    }

    /// A transaction executed in a slot.
    pub fn notify_transaction(
        &mut self,
        transaction: ReplicaTransactionInfo,
        slot: u64,
        created_at: Timestamp,
    ) -> (r: Result<(), PushError>)
        requires
            push_allowed(old(self).messages, ProtobufMessage::Transaction { slot, transaction }),
        ensures
            final(self).encoder == old(self).encoder,
            push_outcome(
                old(self).messages,
                final(self).messages,
                ProtobufMessage::Transaction { slot, transaction },
                created_at,
                r,
            ),
    {
        let m = ProtobufMessage::Transaction { slot, transaction };
        self.messages.push_with_timestamp(&m, self.encoder, created_at)
    }

    /// An entry of a block.
    pub fn notify_entry(&mut self, entry: ReplicaEntryInfo, created_at: Timestamp) -> (r: Result<(), PushError>)
        requires
            push_allowed(old(self).messages, ProtobufMessage::Entry { entry }),
        ensures
            final(self).encoder == old(self).encoder,
            push_outcome(old(self).messages, final(self).messages, ProtobufMessage::Entry { entry }, created_at, r),
    {
        let m = ProtobufMessage::Entry { entry };
        self.messages.push_with_timestamp(&m, self.encoder, created_at)
    }

    /// A block's metadata.
    pub fn notify_block_metadata(&mut self, blockinfo: ReplicaBlockInfo, created_at: Timestamp) -> (r: Result<(), PushError>)
        requires
            push_allowed(old(self).messages, ProtobufMessage::BlockMeta { blockinfo }),
        ensures
            final(self).encoder == old(self).encoder,
            push_outcome(old(self).messages, final(self).messages, ProtobufMessage::BlockMeta { blockinfo }, created_at, r),
    {
        let m = ProtobufMessage::BlockMeta { blockinfo };
        self.messages.push_with_timestamp(&m, self.encoder, created_at)
    }

    /// The plugin wants account data.
    pub fn account_data_notifications_enabled(&self) -> (r: bool)
        ensures
            r,
    {
        true
    }

    /// The plugin wants transactions.
    pub fn transaction_notifications_enabled(&self) -> (r: bool)
        ensures
            r,
    {
        true
    }

    /// The plugin wants entries.
    pub fn entry_notifications_enabled(&self) -> (r: bool)
        ensures
            r,
    {
        true
    }
}

} // verus!
